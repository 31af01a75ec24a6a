//! Consumer groups: membership, generations, partition assignment and committed offsets.
//!
//! Times are nanoseconds since a fixed origin. Offset files are read and written by whoever
//! owns them; the coordinator says which, and what is in them.

use vstd::prelude::*;
use vstd::utf8;

use crate::sorted;
use crate::sorted::{Key, SortedMap};
use crate::storage;
use crate::text;

verus! {

/// The longest group, topic or member id, in bytes.
pub const MAX_ID_LENGTH: usize = 249;

#[derive(Debug, Clone, Copy, PartialEq, Eq, Structural)]
pub enum GroupError {
    InvalidId,
    UnknownGroup,
    UnknownMember,
    StaleGeneration { expected: u64, actual: u64 },
    PartitionNotAssigned(u32),
    GenerationOverflow,
    InvalidOffsetFile,
    CoordinatorPoisoned,
}

impl GroupError {
    /// What the error says.
    pub open spec fn text(self) -> Seq<char> {
        match self {
            GroupError::InvalidId => "group, topic, or member id is invalid"@,
            GroupError::UnknownGroup => "consumer group does not exist"@,
            GroupError::UnknownMember => "consumer member does not exist"@,
            GroupError::StaleGeneration { expected, actual } => "stale generation: expected "@
                + text::decimal(expected as nat) + ", received "@ + text::decimal(actual as nat),
            GroupError::PartitionNotAssigned(partition) => "partition "@ + text::decimal(
                partition as nat,
            ) + " is not assigned to this member"@,
            GroupError::GenerationOverflow => "consumer group generation space is exhausted"@,
            GroupError::InvalidOffsetFile => "committed offset file is invalid"@,
            GroupError::CoordinatorPoisoned => "consumer group coordinator lock is poisoned"@,
        }
    }

    /// The error in words.
    pub fn message(&self) -> (message: String)
        ensures
            message@ == self.text(),
    {
        match self {
            GroupError::InvalidId => "group, topic, or member id is invalid".to_owned(),
            GroupError::UnknownGroup => "consumer group does not exist".to_owned(),
            GroupError::UnknownMember => "consumer member does not exist".to_owned(),
            GroupError::StaleGeneration { expected, actual } => {
                let mut out = "stale generation: expected ".to_owned();
                text::push_decimal(&mut out, *expected);
                out.append(", received ");
                text::push_decimal(&mut out, *actual);
                out
            },
            GroupError::PartitionNotAssigned(partition) => {
                let mut out = "partition ".to_owned();
                text::push_decimal(&mut out, *partition as u64);
                out.append(" is not assigned to this member");
                out
            },
            GroupError::GenerationOverflow => {
                "consumer group generation space is exhausted".to_owned()
            },
            GroupError::InvalidOffsetFile => "committed offset file is invalid".to_owned(),
            GroupError::CoordinatorPoisoned => {
                "consumer group coordinator lock is poisoned".to_owned()
            },
        }
    }
}

/// A consumer group as a value.
#[verifier::ext_equal]
pub struct Group {
    pub generation: u64,
    /// When each member was last heard of.
    pub members: Map<Seq<char>, u128>,
    /// The partitions of each member that has any.
    pub assignments: Map<Seq<char>, Seq<u32>>,
    pub committed_offsets: Map<u32, u64>,
}

/// The partitions below `count` that fall to the member at `index` of `total`, ascending.
pub open spec fn share(index: int, total: int, count: nat) -> Seq<u32>
    decreases count,
{
    if count == 0 {
        Seq::empty()
    } else {
        let before = share(index, total, (count - 1) as nat);
        if (count - 1) % total == index {
            before.push((count - 1) as u32)
        } else {
            before
        }
    }
}

/// The partitions of each member: they are dealt out in turn, to the members in order.
pub open spec fn dealt(members: Seq<Seq<char>>, count: u32) -> Map<Seq<char>, Seq<u32>> {
    Map::new(
        |name: Seq<char>| members.contains(name) && members.index_of(name) < count,
        |name: Seq<char>| share(members.index_of(name), members.len() as int, count as nat),
    )
}

/// Whether a member that was last heard of at `heartbeat` has been silent for too long.
pub open spec fn is_silent(heartbeat: u128, timeout: u128, now: u128) -> bool {
    now - heartbeat > timeout
}

impl Group {
    /// A group that nobody has joined.
    pub open spec fn unjoined(committed_offsets: Map<u32, u64>) -> Group {
        Group {
            generation: 0,
            members: Map::empty(),
            assignments: Map::empty(),
            committed_offsets,
        }
    }

    pub open spec fn has_silent(self, timeout: u128, now: u128) -> bool {
        exists|name: Seq<char>| #[trigger]
            self.members.dom().contains(name) && is_silent(self.members[name], timeout, now)
    }

    /// The group without its silent members.
    pub open spec fn live(self, timeout: u128, now: u128) -> Group {
        Group {
            members: Map::new(
                |name: Seq<char>|
                    self.members.dom().contains(name) && !is_silent(
                        self.members[name],
                        timeout,
                        now,
                    ),
                |name: Seq<char>| self.members[name],
            ),
            ..self
        }
    }

    /// The next generation, with the partitions dealt out anew.
    pub open spec fn rebalanced(self, count: u32) -> Group {
        Group {
            generation: (self.generation + 1) as u64,
            assignments: dealt(sorted::in_order::<String>(self.members.dom()), count),
            ..self
        }
    }

    /// The group as it is once silent members were dropped, and whether that succeeded: it
    /// fails where a rebalance is due and no generation is left.
    pub open spec fn refreshed(self, timeout: u128, now: u128, count: u32) -> (Group, bool) {
        if !self.has_silent(timeout, now) {
            (self, true)
        } else if self.generation == u64::MAX {
            (self.live(timeout, now), false)
        } else {
            (self.live(timeout, now).rebalanced(count), true)
        }
    }

    /// Why a request of a member is refused, or `None`.
    pub open spec fn member_refusal(self, member: Seq<char>, generation: u64) -> Option<
        GroupError,
    > {
        if generation != self.generation {
            Some(GroupError::StaleGeneration { expected: self.generation, actual: generation })
        } else if !self.members.dom().contains(member) {
            Some(GroupError::UnknownMember)
        } else {
            None
        }
    }

    /// The partitions of a member.
    pub open spec fn partitions_of(self, member: Seq<char>) -> Seq<u32> {
        if self.assignments.dom().contains(member) {
            self.assignments[member]
        } else {
            Seq::empty()
        }
    }

    /// Why a request of a member on a partition is refused, or `None`.
    pub open spec fn partition_refusal(
        self,
        member: Seq<char>,
        generation: u64,
        partition: u32,
    ) -> Option<GroupError> {
        match self.member_refusal(member, generation) {
            Some(error) => Some(error),
            None => if self.partitions_of(member).contains(partition) {
                None
            } else {
                Some(GroupError::PartitionNotAssigned(partition))
            },
        }
    }

    pub open spec fn heard_of(self, member: Seq<char>, now: u128) -> Group {
        Group { members: self.members.insert(member, now), ..self }
    }

    /// The group with the offsets that were read from its files.
    pub open spec fn with_offsets(self, offsets: Map<u32, u64>) -> Group {
        Group {
            committed_offsets: self.committed_offsets.union_prefer_right(offsets),
            ..self
        }
    }

    pub open spec fn without(self, member: Seq<char>) -> Group {
        Group { members: self.members.remove(member), ..self }
    }

    /// The group once a member has joined, and whether that succeeded.
    pub open spec fn joined(self, member: Seq<char>, timeout: u128, now: u128, count: u32) -> (
        Group,
        bool,
    ) {
        let live = self.live(timeout, now);
        let with_member = live.heard_of(member, now);
        if live.members.dom().contains(member) && !self.has_silent(timeout, now) && self.generation
            != 0 {
            (with_member, true)
        } else if self.generation == u64::MAX {
            (with_member, false)
        } else {
            (with_member.rebalanced(count), true)
        }
    }
}

/// How many partitions are assigned to the named members.
pub open spec fn assigned_total(
    names: Seq<Seq<char>>,
    assignments: Map<Seq<char>, Seq<u32>>,
) -> nat
    decreases names.len(),
{
    if names.len() == 0 {
        0
    } else {
        assigned_total(names.drop_last(), assignments) + assignments[names.last()].len()
    }
}

/// The state of a consumer group on a topic.
pub struct ConsumerGroup {
    generation: u64,
    members: SortedMap<String, u128>,
    assignments: SortedMap<String, Vec<u32>>,
    committed_offsets: SortedMap<u32, u64>,
}

impl View for ConsumerGroup {
    type V = Group;

    closed spec fn view(&self) -> Group {
        Group {
            generation: self.generation,
            members: self.members@,
            assignments: self.assignments@.map_values(|partitions: Vec<u32>| partitions@),
            committed_offsets: self.committed_offsets@,
        }
    }
}

spec fn total_len(lists: Seq<Vec<u32>>) -> nat
    decreases lists.len(),
{
    if lists.len() == 0 {
        0
    } else {
        total_len(lists.drop_last()) + lists.last()@.len()
    }
}

impl ConsumerGroup {
    pub closed spec fn wf(self) -> bool {
        &&& self.members.wf()
        &&& self.assignments.wf()
        &&& self.committed_offsets.wf()
        &&& total_len(self.assignments.values@) <= u32::MAX
    }

    fn new(committed_offsets: SortedMap<u32, u64>) -> (group: Self)
        requires
            committed_offsets.wf(),
        ensures
            group.wf(),
            group@ == Group::unjoined(committed_offsets@),
    {
        let group = ConsumerGroup {
            generation: 0,
            members: SortedMap::new(),
            assignments: SortedMap::new(),
            committed_offsets,
        };
        assert(group@ =~= Group::unjoined(committed_offsets@));
        group
    }
}

/// Drops the silent members, and tells whether there were any.
fn expire_members(group: &mut ConsumerGroup, timeout: u128, now: u128) -> (expired: bool)
    requires
        old(group).wf(),
    ensures
        final(group).wf(),
        final(group)@ == old(group)@.live(timeout, now),
        expired == old(group)@.has_silent(timeout, now),
{
    let ghost before = group@;
    let ghost members = group.members;
    let mut kept: SortedMap<String, u128> = SortedMap::new();
    let mut expired: bool = false;
    let mut i: usize = 0;
    while i < group.members.len()
        invariant
            i <= members.keys@.len(),
            members == group.members,
            before == group@,
            members.wf(),
            group.wf(),
            kept.wf(),
            before.members == members@,
            forall|j: int|
                0 <= j < i ==> (kept@.dom().contains((#[trigger] members.keys@[j])@)
                    <==> !is_silent(members.values@[j], timeout, now)),
            forall|name: Seq<char>| #[trigger]
                kept@.dom().contains(name) ==> kept@[name] == members@[name] && exists|j: int|
                    0 <= j < i && (#[trigger] members.keys@[j])@ == name,
            expired ==> exists|j: int|
                0 <= j < i && is_silent(#[trigger] members.values@[j], timeout, now),
            !expired ==> forall|j: int|
                0 <= j < i ==> !is_silent(#[trigger] members.values@[j], timeout, now),
        decreases members.keys@.len() - i,
    {
        let heartbeat: u128 = group.members.values[i];
        let ghost kept_before = kept@;
        proof {
            members.lemma_at(i as int);
            members.lemma_distinct();
        }
        if now > heartbeat && now - heartbeat > timeout {
            expired = true;
            assert(is_silent(members.values@[i as int], timeout, now));
        } else {
            kept.insert(group.members.keys[i].clone(), heartbeat);
            proof {
                let added = members.keys@[i as int]@;
                assert forall|name: Seq<char>| #[trigger] kept@.dom().contains(name) implies kept@[name]
                    == members@[name] && exists|j: int|
                    0 <= j < i + 1 && (#[trigger] members.keys@[j])@ == name by {
                    if name == added {
                        assert(members.keys@[i as int]@ == name);
                    } else {
                        assert(kept_before.dom().contains(name));
                    }
                }
            }
        }
        i = i + 1;
    }
    group.members = kept;
    proof {
        let live = before.live(timeout, now);
        assert forall|name: Seq<char>| kept@.dom().contains(name) <==> live.members.dom().contains(
            name,
        ) by {
            if kept@.dom().contains(name) {
                let j = choose|j: int|
                    0 <= j < members.keys@.len() && (#[trigger] members.keys@[j])@ == name;
                members.lemma_at(j);
            }
            if live.members.dom().contains(name) {
                let j = members.lemma_place(name);
                members.lemma_at(j);
                assert(members.keys@[j]@ == name);
            }
        }
        assert(kept@ =~= live.members);
        if before.has_silent(timeout, now) {
            let name = choose|name: Seq<char>| #[trigger]
                before.members.dom().contains(name) && is_silent(
                    before.members[name],
                    timeout,
                    now,
                );
            let j = members.lemma_place(name);
            members.lemma_at(j);
            assert(is_silent(members.values@[j], timeout, now));
        }
        if expired {
            let j = choose|j: int|
                0 <= j < members.keys@.len() && is_silent(
                    #[trigger] members.values@[j],
                    timeout,
                    now,
                );
            members.lemma_at(j);
            assert(before.members.dom().contains(members.keys@[j]@));
        }
        assert(group@ =~= live);
    }
    expired
}

/// How many partitions the first `members` of `total` members get together.
spec fn shares_len(members: int, total: int, count: nat) -> nat
    decreases members,
{
    if members <= 0 {
        0
    } else {
        shares_len(members - 1, total, count) + share(members - 1, total, count).len()
    }
}

proof fn lemma_shares_step(members: int, total: int, count: nat)
    requires
        0 <= members <= total,
        total > 0,
    ensures
        shares_len(members, total, count + 1) == shares_len(members, total, count) + if (count
            as int) % total < members {
            1nat
        } else {
            0
        },
    decreases members,
{
    if members > 0 {
        lemma_shares_step(members - 1, total, count);
        assert((count as int) % total >= 0) by (nonlinear_arith)
            requires
                total > 0,
        ;
    } else {
        assert((count as int) % total >= 0) by (nonlinear_arith)
            requires
                total > 0,
        ;
    }
}

/// No more partitions are dealt out than there are.
proof fn lemma_shares_len(members: int, total: int, count: nat)
    requires
        0 <= members <= total,
        total > 0,
    ensures
        shares_len(members, total, count) <= count,
    decreases count,
{
    if count == 0 {
        lemma_no_shares(members, total);
    } else {
        lemma_shares_len(members, total, (count - 1) as nat);
        lemma_shares_step(members, total, (count - 1) as nat);
    }
}

proof fn lemma_no_shares(members: int, total: int)
    ensures
        shares_len(members, total, 0) == 0,
    decreases members,
{
    if members > 0 {
        lemma_no_shares(members - 1, total);
    }
}

/// The share of a member holds the partitions that leave its index as remainder.
pub proof fn lemma_share_contains(index: int, total: int, count: nat, partition: u32)
    requires
        count <= u32::MAX + 1,
    ensures
        share(index, total, count).contains(partition) <==> partition < count && partition as int
            % total == index,
    decreases count,
{
    if count > 0 {
        let before = share(index, total, (count - 1) as nat);
        let whole = share(index, total, count);
        lemma_share_contains(index, total, (count - 1) as nat, partition);
        if (count - 1) % total == index {
            assert(whole == before.push((count - 1) as u32));
            if partition == count - 1 {
                assert(whole[before.len() as int] == partition);
            }
            if before.contains(partition) {
                let i = choose|i: int| 0 <= i < before.len() && before[i] == partition;
                assert(whole[i] == partition);
            }
            if whole.contains(partition) && partition != count - 1 {
                let i = choose|i: int| 0 <= i < whole.len() && whole[i] == partition;
                assert(before[i] == partition);
            }
        }
    }
}

/// The partitions below `count` for the member at `index` of `total`.
fn share_of(index: usize, total: usize, count: u32) -> (partitions: Vec<u32>)
    requires
        index < total,
    ensures
        partitions@ == share(index as int, total as int, count as nat),
{
    let mut partitions: Vec<u32> = Vec::new();
    let mut partition: u32 = 0;
    while partition < count
        invariant
            index < total,
            partition <= count,
            partitions@ == share(index as int, total as int, partition as nat),
        decreases count - partition,
    {
        if partition as usize % total == index {
            partitions.push(partition);
        }
        partition = partition + 1;
    }
    partitions
}

/// Starts the next generation and deals the partitions out to the members.
fn rebalance(group: &mut ConsumerGroup, partition_count: u32) -> (done: Result<(), GroupError>)
    requires
        old(group).wf(),
    ensures
        final(group).wf(),
        if old(group)@.generation == u64::MAX {
            &&& done == Err::<(), GroupError>(GroupError::GenerationOverflow)
            &&& final(group)@ == old(group)@
        } else {
            &&& done == Ok::<(), GroupError>(())
            &&& final(group)@ == old(group)@.rebalanced(partition_count)
        },
{
    if group.generation == u64::MAX {
        return Err(GroupError::GenerationOverflow);
    }
    let ghost before = group@;
    let ghost order = group.members.key_values();
    let total: usize = group.members.len();
    let mut assignments: SortedMap<String, Vec<u32>> = SortedMap::new();
    let mut index: usize = 0;
    proof {
        group.members.lemma_ordered();
        lemma_no_shares(0, total as int);
    }
    while index < total && (index as u64) < partition_count as u64
        invariant
            group.wf(),
            group@ == before,
            total == group.members.keys@.len(),
            order == group.members.key_values(),
            index <= total,
            index <= partition_count,
            assignments.wf(),
            assignments.keys@.len() == index,
            forall|i: int|
                0 <= i < index ==> (#[trigger] assignments.keys@[i])@ == order[i],
            forall|i: int|
                0 <= i < index ==> (#[trigger] assignments.values@[i])@ == share(
                    i,
                    total as int,
                    partition_count as nat,
                ),
            total_len(assignments.values@) == shares_len(
                index as int,
                total as int,
                partition_count as nat,
            ),
        decreases total - index,
    {
        let partitions = share_of(index, total, partition_count);
        let ghost keys = assignments.keys@;
        let ghost values = assignments.values@;
        assignments.keys.push(group.members.keys[index].clone());
        assignments.values.push(partitions);
        proof {
            assert(assignments.values@.drop_last() =~= values);
            assert forall|i: int, j: int|
                #![trigger assignments.keys@[i], assignments.keys@[j]]
                0 <= i < j < assignments.keys@.len() implies String::before(
                assignments.keys@[i].value(),
                assignments.keys@[j].value(),
            ) by {
                assert(String::before(
                    group.members.keys@[i].value(),
                    group.members.keys@[j].value(),
                ));
                assert(order[i] == group.members.keys@[i].value());
                assert(order[j] == group.members.keys@[j].value());
            }
        }
        index = index + 1;
    }
    proof {
        if total > 0 {
            lemma_shares_len(index as int, total as int, partition_count as nat);
        }
        lemma_dealt(assignments, order, partition_count);
    }
    group.generation = group.generation + 1;
    group.assignments = assignments;
    assert(group@ =~= before.rebalanced(partition_count));
    Ok(())
}

/// Lists in the order of the members, up to the last one that gets a partition, make the dealt
/// assignment.
proof fn lemma_dealt(
    assignments: SortedMap<String, Vec<u32>>,
    order: Seq<Seq<char>>,
    count: u32,
)
    requires
        assignments.wf(),
        assignments.keys@.len() <= order.len(),
        assignments.keys@.len() <= count,
        assignments.keys@.len() == order.len() || assignments.keys@.len() == count,
        sorted::strictly_ascending::<String>(order),
        forall|i: int|
            0 <= i < assignments.keys@.len() ==> (#[trigger] assignments.keys@[i])@ == order[i],
        forall|i: int|
            0 <= i < assignments.keys@.len() ==> (#[trigger] assignments.values@[i])@ == share(
                i,
                order.len() as int,
                count as nat,
            ),
    ensures
        assignments@.map_values(|partitions: Vec<u32>| partitions@) == dealt(order, count),
{
    let made = assignments@.map_values(|partitions: Vec<u32>| partitions@);
    let expected = dealt(order, count);
    assert forall|i: int, j: int|
        0 <= i < order.len() && 0 <= j < order.len() && #[trigger] order[i]
            == #[trigger] order[j] implies i == j by {
        String::before_irreflexive(order[i]);
        if i < j {
            assert(String::before(order[i], order[j]));
        } else if j < i {
            assert(String::before(order[j], order[i]));
        }
    }
    assert forall|name: Seq<char>| #[trigger] made.dom().contains(name) implies expected.dom()
        .contains(name) && made[name] == expected[name] by {
        let i = assignments.lemma_place(name);
        assignments.lemma_at(i);
        assert(order[i] == name);
        let at = order.index_of(name);
        assert(order[at] == name);
        assert(assignments.values@[i]@ == share(i, order.len() as int, count as nat));
    }
    assert forall|name: Seq<char>| #[trigger] expected.dom().contains(name) implies made.dom()
        .contains(name) by {
        let at = order.index_of(name);
        assert(order[at] == name);
        assignments.lemma_at(at);
        assert(assignments.keys@[at]@ == order[at]);
    }
    assert(made =~= expected);
}

/// Refuses a request of another generation, or of somebody who is no member.
fn validate_member(group: &ConsumerGroup, member: &str, generation: u64) -> (checked: Result<
    (),
    GroupError,
>)
    requires
        group.wf(),
    ensures
        checked == match group@.member_refusal(member@, generation) {
            Some(error) => Err::<(), GroupError>(error),
            None => Ok(()),
        },
{
    if generation != group.generation {
        return Err(
            GroupError::StaleGeneration { expected: group.generation, actual: generation },
        );
    }
    if !group.members.contains_key(&member.to_owned()) {
        return Err(GroupError::UnknownMember);
    }
    Ok(())
}

/// Refuses a request on a partition that is not the member's.
fn validate_partition(
    group: &ConsumerGroup,
    member: &str,
    generation: u64,
    partition: u32,
) -> (checked: Result<(), GroupError>)
    requires
        group.wf(),
    ensures
        checked == match group@.partition_refusal(member@, generation, partition) {
            Some(error) => Err::<(), GroupError>(error),
            None => Ok(()),
        },
{
    match validate_member(group, member, generation) {
        Err(error) => return Err(error),
        Ok(()) => {},
    }
    let assigned: bool = match group.assignments.get(&member.to_owned()) {
        None => false,
        Some(partitions) => contains_partition(partitions, partition),
    };
    if assigned {
        Ok(())
    } else {
        Err(GroupError::PartitionNotAssigned(partition))
    }
}

fn contains_partition(partitions: &Vec<u32>, partition: u32) -> (found: bool)
    ensures
        found == partitions@.contains(partition),
{
    let mut i: usize = 0;
    while i < partitions.len()
        invariant
            i <= partitions@.len(),
            forall|j: int| 0 <= j < i ==> partitions@[j] != partition,
        decreases partitions@.len() - i,
    {
        if partitions[i] == partition {
            return true;
        }
        i = i + 1;
    }
    false
}

/// Whether `id` can name a group, a topic or a member.
pub open spec fn is_id(id: Seq<char>) -> bool {
    text::is_name(id) && id.len() <= MAX_ID_LENGTH
}

pub fn validate_id(value: &str) -> (checked: Result<(), GroupError>)
    ensures
        checked == if is_id(value@) {
            Ok::<(), GroupError>(())
        } else {
            Err(GroupError::InvalidId)
        },
{
    if !text::check_name(value) {
        return Err(GroupError::InvalidId);
    }
    proof {
        assert(utf8::is_ascii_chars(value@)) by {
            assert forall|i: int| 0 <= i < value@.len() implies '\0' <= #[trigger] value@[i]
                <= '\u{7f}' by {
                assert(text::is_name_char(value@[i]));
            }
        }
        utf8::is_ascii_chars_encode_utf8(value@);
    }
    if value.as_bytes().len() > MAX_ID_LENGTH {
        return Err(GroupError::InvalidId);
    }
    Ok(())
}

/// The offset in an offset file.
pub open spec fn parsed_offset(contents: Seq<char>) -> Option<u64> {
    match text::parsed(text::trimmed(contents), u64::MAX as nat) {
        Some(offset) => Some(offset as u64),
        None => None,
    }
}

fn parse_offset(contents: &str) -> (offset: Result<u64, GroupError>)
    ensures
        offset == match parsed_offset(contents@) {
            Some(value) => Ok::<u64, GroupError>(value),
            None => Err(GroupError::InvalidOffsetFile),
        },
{
    let trimmed = text::trim(contents);
    match text::parse_decimal(trimmed.as_str(), u64::MAX) {
        Some(value) => Ok(value),
        None => Err(GroupError::InvalidOffsetFile),
    }
}

/// What the offset file of a committed offset contains.
pub open spec fn offset_line(offset: u64) -> Seq<char> {
    text::decimal(offset as nat) + "\n"@
}

/// The offsets in the offset files of the partitions from zero on, where a file is there, or
/// the fault of a file.
pub open spec fn offsets_in(files: Seq<Option<String>>) -> Result<Map<u32, u64>, GroupError>
    decreases files.len(),
{
    if files.len() == 0 {
        Ok(Map::empty())
    } else {
        match offsets_in(files.drop_last()) {
            Err(error) => Err(error),
            Ok(offsets) => match files.last() {
                None => Ok(offsets),
                Some(contents) => match parsed_offset(contents@) {
                    None => Err(GroupError::InvalidOffsetFile),
                    Some(offset) => Ok(offsets.insert((files.len() - 1) as u32, offset)),
                },
            },
        }
    }
}

proof fn lemma_offsets_fault(files: Seq<Option<String>>, count: int)
    requires
        0 <= count <= files.len(),
        offsets_in(files.take(count)) is Err,
    ensures
        offsets_in(files) == offsets_in(files.take(count)),
    decreases files.len(),
{
    if count < files.len() {
        assert(files.drop_last().take(count) =~= files.take(count));
        lemma_offsets_fault(files.drop_last(), count);
    } else {
        assert(files.take(count) =~= files);
    }
}

/// Reads the offset files of the partitions from zero on.
fn load_offsets(files: &Vec<Option<String>>) -> (offsets: Result<SortedMap<u32, u64>, GroupError>)
    requires
        files@.len() <= u32::MAX,
    ensures
        match offsets_in(files@) {
            Err(error) => offsets matches Err(found) && found == error,
            Ok(expected) => offsets matches Ok(loaded) && loaded.wf() && loaded@ == expected,
        },
{
    let mut offsets: SortedMap<u32, u64> = SortedMap::new();
    let mut i: usize = 0;
    while i < files.len()
        invariant
            i <= files@.len(),
            files@.len() <= u32::MAX,
            offsets.wf(),
            offsets_in(files@.take(i as int)) == Ok::<_, GroupError>(offsets@),
        decreases files@.len() - i,
    {
        proof {
            assert(files@.take(i + 1).drop_last() =~= files@.take(i as int));
            assert(files@.take(i + 1).last() == files@[i as int]);
        }
        match &files[i] {
            None => {},
            Some(contents) => match parse_offset(contents.as_str()) {
                Err(error) => {
                    proof {
                        lemma_offsets_fault(files@, i + 1);
                    }
                    return Err(error);
                },
                Ok(offset) => {
                    offsets.insert(i as u32, offset);
                },
            },
        }
        i = i + 1;
    }
    assert(files@.take(i as int) =~= files@);
    Ok(offsets)
}

/// Where the committed offset of a partition is kept.
pub open spec fn offset_file(
    offsets_dir: Seq<char>,
    group: Seq<char>,
    topic: Seq<char>,
    partition: nat,
) -> Seq<char> {
    storage::path_below(
        storage::path_below(storage::path_below(offsets_dir, group), topic),
        text::decimal(partition) + ".offset"@,
    )
}

/// Where the committed offset of a partition is kept.
pub fn offset_path(offsets_dir: &str, group: &str, topic: &str, partition: u32) -> (path: String)
    ensures
        path@ == offset_file(offsets_dir@, group@, topic@, partition as nat),
{
    let group_dir = storage::join_path(offsets_dir, group);
    let topic_dir = storage::join_path(group_dir.as_str(), topic);
    let mut name = text::decimal_text(partition as u64);
    name.append(".offset");
    storage::join_path(topic_dir.as_str(), name.as_str())
}

/// A coordinator as a value.
#[verifier::ext_equal]
pub struct Coordinator {
    pub offsets_dir: Seq<char>,
    pub default_partition_count: u32,
    pub topic_partition_counts: Map<Seq<char>, u32>,
    pub session_timeout: u128,
    /// The groups by group id and topic.
    pub groups: Map<(Seq<char>, Seq<char>), Group>,
}

impl Coordinator {
    /// The partition count of a topic.
    pub open spec fn partition_count(self, topic: Seq<char>) -> u32 {
        if self.topic_partition_counts.dom().contains(topic) {
            self.topic_partition_counts[topic]
        } else {
            self.default_partition_count
        }
    }

    pub open spec fn has_group(self, group: Seq<char>, topic: Seq<char>) -> bool {
        self.groups.dom().contains((group, topic))
    }

    pub open spec fn with_group(self, group: Seq<char>, topic: Seq<char>, state: Group) -> Self {
        Coordinator { groups: self.groups.insert((group, topic), state), ..self }
    }

    /// A group once its silent members were dropped, and whether that succeeded.
    pub open spec fn refreshed(self, group: Seq<char>, topic: Seq<char>, now: u128) -> (
        Group,
        bool,
    ) {
        self.groups[(group, topic)].refreshed(
            self.session_timeout,
            now,
            self.partition_count(topic),
        )
    }
}

/// The coordinator once a group has committed an offset of a partition.
pub open spec fn offset_committed(
    coordinator: Coordinator,
    group: Seq<char>,
    topic: Seq<char>,
    partition: u32,
    offset: u64,
) -> Coordinator {
    let before = coordinator.groups[(group, topic)];
    coordinator.with_group(
        group,
        topic,
        Group {
            committed_offsets: before.committed_offsets.insert(partition, offset),
            ..before
        },
    )
}

/// Whether all groups are still there, each in the generation that it was in or in a later one.
pub open spec fn advanced(before: Coordinator, after: Coordinator) -> bool {
    forall|group: Seq<char>, topic: Seq<char>| #[trigger]
        before.has_group(group, topic) ==> after.has_group(group, topic) && before.groups[(
            group,
            topic,
        )].generation <= after.groups[(group, topic)].generation
}

/// What a member learns when it joins: the generation and its partitions.
#[derive(Debug, PartialEq, Eq)]
pub struct JoinGroupResponse {
    generation: u64,
    partitions: Vec<u32>,
}

impl JoinGroupResponse {
    pub closed spec fn generation_value(self) -> u64 {
        self.generation
    }

    pub closed spec fn partition_values(self) -> Seq<u32> {
        self.partitions@
    }

    pub fn new(generation: u64, partitions: Vec<u32>) -> (response: Self)
        ensures
            response.generation_value() == generation,
            response.partition_values() == partitions@,
    {
        JoinGroupResponse { generation, partitions }
    }

    pub fn generation(&self) -> (generation: u64)
        ensures
            generation == self.generation_value(),
    {
        self.generation
    }

    pub fn partitions(&self) -> (partitions: &[u32])
        ensures
            partitions@ == self.partition_values(),
    {
        self.partitions.as_slice()
    }
}

/// Who asks: a member of a group on a topic, in a generation.
pub struct GroupIdentity<'a> {
    pub group: &'a str,
    pub topic: &'a str,
    pub member: &'a str,
    pub generation: u64,
}

/// What has to be written for a commit: a file below a directory, and its contents.
pub struct OffsetWrite {
    pub directory: String,
    pub path: String,
    pub contents: String,
}

/// Keeps the consumer groups.
pub struct GroupCoordinator {
    offsets_dir: String,
    default_partition_count: u32,
    topic_partition_counts: SortedMap<String, u32>,
    session_timeout: u128,
    groups: SortedMap<(String, String), ConsumerGroup>,
}

spec fn group_views(groups: Map<(Seq<char>, Seq<char>), ConsumerGroup>) -> Map<
    (Seq<char>, Seq<char>),
    Group,
> {
    groups.map_values(|group: ConsumerGroup| group@)
}

impl View for GroupCoordinator {
    type V = Coordinator;

    closed spec fn view(&self) -> Coordinator {
        Coordinator {
            offsets_dir: self.offsets_dir@,
            default_partition_count: self.default_partition_count,
            topic_partition_counts: self.topic_partition_counts@,
            session_timeout: self.session_timeout,
            groups: group_views(self.groups@),
        }
    }
}

impl GroupCoordinator {
    pub closed spec fn wf(self) -> bool {
        &&& self.topic_partition_counts.wf()
        &&& self.groups.wf()
        &&& forall|key: (Seq<char>, Seq<char>)| #[trigger]
            self.groups@.dom().contains(key) ==> self.groups@[key].wf()
    }

    /// A coordinator without groups. Those that have offset files are recovered next.
    pub fn open(data_dir: &str, partition_count: u32, session_timeout: u128) -> (coordinator: Self)
        ensures
            coordinator.wf(),
            coordinator@ == (Coordinator {
                offsets_dir: storage::path_below(data_dir@, "__consumer_offsets"@),
                default_partition_count: partition_count,
                topic_partition_counts: Map::empty(),
                session_timeout,
                groups: Map::empty(),
            }),
    {
        let coordinator = GroupCoordinator {
            offsets_dir: storage::join_path(data_dir, "__consumer_offsets"),
            default_partition_count: partition_count,
            topic_partition_counts: SortedMap::new(),
            session_timeout,
            groups: SortedMap::new(),
        };
        assert(coordinator@.groups =~= Map::empty());
        coordinator
    }

    /// The directory of the offset files.
    pub fn offsets_dir(&self) -> (dir: &str)
        ensures
            dir@ == self@.offsets_dir,
    {
        self.offsets_dir.as_str()
    }

    /// The partition count of a topic.
    pub fn partition_count(&self, topic: &str) -> (count: u32)
        requires
            self.wf(),
        ensures
            count == self@.partition_count(topic@),
    {
        match self.topic_partition_counts.get(&topic.to_owned()) {
            Some(count) => *count,
            None => self.default_partition_count,
        }
    }

    /// Puts `state` in place of the state of a group.
    fn put_group(&mut self, group: &str, topic: &str, state: ConsumerGroup)
        requires
            old(self).wf(),
            state.wf(),
        ensures
            final(self).wf(),
            final(self)@ == old(self)@.with_group(group@, topic@, state@),
    {
        let ghost before = *self;
        let key = (group.to_owned(), topic.to_owned());
        self.groups.insert(key, state);
        proof {
            assert(self@.groups =~= before@.groups.insert((group@, topic@), state@));
            assert forall|other: (Seq<char>, Seq<char>)| #[trigger]
                self.groups@.dom().contains(other) implies self.groups@[other].wf() by {
                if other != (group@, topic@) {
                    assert(before.groups@.dom().contains(other));
                }
            }
        }
    }

    /// Takes the state of a group out, where the group is there.
    fn take_group(&mut self, group: &str, topic: &str) -> (taken: Option<ConsumerGroup>)
        requires
            old(self).wf(),
        ensures
            final(self).wf(),
            final(self)@ == (Coordinator {
                groups: old(self)@.groups.remove((group@, topic@)),
                ..old(self)@
            }),
            match taken {
                Some(state) => old(self)@.has_group(group@, topic@) && state.wf() && state@
                    == old(self)@.groups[(group@, topic@)],
                None => !old(self)@.has_group(group@, topic@) && final(self)@ == old(self)@,
            },
    {
        let ghost before = *self;
        let key = (group.to_owned(), topic.to_owned());
        let taken = self.groups.remove(&key);
        proof {
            assert(self@.groups =~= before@.groups.remove((group@, topic@)));
            assert forall|other: (Seq<char>, Seq<char>)| #[trigger]
                self.groups@.dom().contains(other) implies self.groups@[other].wf() by {
                assert(before.groups@.dom().contains(other));
            }
            if taken is None {
                assert(self@.groups =~= before@.groups);
            }
        }
        taken
    }

    /// Takes the state of a group out and drops its silent members.
    fn active_group(&mut self, group: &str, topic: &str, now: u128) -> (taken: Result<
        (ConsumerGroup, bool),
        GroupError,
    >)
        requires
            old(self).wf(),
        ensures
            final(self).wf(),
            if old(self)@.has_group(group@, topic@) {
                &&& taken matches Ok((state, refreshed))
                &&& state.wf()
                &&& (state@, refreshed) == old(self)@.refreshed(group@, topic@, now)
                &&& final(self)@ == (Coordinator {
                    groups: old(self)@.groups.remove((group@, topic@)),
                    ..old(self)@
                })
            } else {
                &&& taken matches Err(error) && error == GroupError::UnknownGroup
                &&& final(self)@ == old(self)@
            },
    {
        let partition_count: u32 = self.partition_count(topic);
        let mut state = match self.take_group(group, topic) {
            Some(state) => state,
            None => return Err(GroupError::UnknownGroup),
        };
        let ghost before = state@;
        let mut refreshed: bool = true;
        if expire_members(&mut state, self.session_timeout, now) {
            match rebalance(&mut state, partition_count) {
                Ok(()) => {},
                Err(_) => {
                    refreshed = false;
                },
            }
        } else {
            proof {
                assert(state@ =~= before) by {
                    assert forall|name: Seq<char>| before.members.dom().contains(
                        name,
                    ) implies !is_silent(before.members[name], self.session_timeout, now) by {};
                    assert(state@.members =~= before.members);
                }
            }
        }
        Ok((state, refreshed))
    }
}

proof fn lemma_put_back(
    coordinator: Coordinator,
    group: Seq<char>,
    topic: Seq<char>,
    state: Group,
)
    ensures
        (Coordinator {
            groups: coordinator.groups.remove((group, topic)),
            ..coordinator
        }).with_group(group, topic, state) == coordinator.with_group(group, topic, state),
{
    assert(coordinator.groups.remove((group, topic)).insert((group, topic), state)
        =~= coordinator.groups.insert((group, topic), state));
}

/// What a request of a member leads to: the state of the group, and the refusal if there is one.
/// The silent members are dropped first; where that fails, or the request is refused, nothing
/// else changes.
pub open spec fn member_request(
    coordinator: Coordinator,
    group: Seq<char>,
    topic: Seq<char>,
    member: Seq<char>,
    generation: u64,
    now: u128,
) -> (Coordinator, Option<GroupError>) {
    if !coordinator.has_group(group, topic) {
        (coordinator, Some(GroupError::UnknownGroup))
    } else {
        let (state, refreshed) = coordinator.refreshed(group, topic, now);
        (
            coordinator.with_group(group, topic, state),
            if refreshed {
                state.member_refusal(member, generation)
            } else {
                Some(GroupError::GenerationOverflow)
            },
        )
    }
}

/// What a join leads to: the state, and the generation and partitions of the member, or the
/// refusal. `files` holds the offset files of a group that is not there yet.
pub open spec fn join_request(
    coordinator: Coordinator,
    group: Seq<char>,
    topic: Seq<char>,
    member: Seq<char>,
    files: Seq<Option<String>>,
    now: u128,
) -> (Coordinator, Result<(u64, Seq<u32>), GroupError>) {
    if !is_id(group) || !is_id(topic) || !is_id(member) {
        (coordinator, Err(GroupError::InvalidId))
    } else if !coordinator.has_group(group, topic) && offsets_in(files) is Err {
        (coordinator, Err(GroupError::InvalidOffsetFile))
    } else {
        let before = if coordinator.has_group(group, topic) {
            coordinator.groups[(group, topic)]
        } else {
            Group::unjoined(offsets_in(files)->Ok_0)
        };
        let (after, succeeded) = before.joined(
            member,
            coordinator.session_timeout,
            now,
            coordinator.partition_count(topic),
        );
        (
            coordinator.with_group(group, topic, after),
            if succeeded {
                Ok((after.generation, after.partitions_of(member)))
            } else {
                Err(GroupError::GenerationOverflow)
            },
        )
    }
}

/// What a heartbeat leads to: the state, and the refusal if there is one.
pub open spec fn heartbeat_request(
    coordinator: Coordinator,
    group: Seq<char>,
    topic: Seq<char>,
    member: Seq<char>,
    generation: u64,
    now: u128,
) -> (Coordinator, Option<GroupError>) {
    let (after, refusal) = member_request(coordinator, group, topic, member, generation, now);
    match refusal {
        Some(error) => (after, Some(error)),
        None => (
            after.with_group(group, topic, after.groups[(group, topic)].heard_of(member, now)),
            None,
        ),
    }
}

/// What it leads to that a member leaves: the state, and the refusal if there is one.
pub open spec fn leave_request(
    coordinator: Coordinator,
    group: Seq<char>,
    topic: Seq<char>,
    member: Seq<char>,
    generation: u64,
    now: u128,
) -> (Coordinator, Option<GroupError>) {
    let (after, refusal) = member_request(coordinator, group, topic, member, generation, now);
    match refusal {
        Some(error) => (after, Some(error)),
        None => {
            let left = after.groups[(group, topic)].without(member);
            if left.generation == u64::MAX {
                (after.with_group(group, topic, left), Some(GroupError::GenerationOverflow))
            } else {
                (
                    after.with_group(
                        group,
                        topic,
                        left.rebalanced(coordinator.partition_count(topic)),
                    ),
                    None,
                )
            }
        },
    }
}

/// What a request of a member on a partition leads to.
pub open spec fn partition_request(
    coordinator: Coordinator,
    group: Seq<char>,
    topic: Seq<char>,
    member: Seq<char>,
    generation: u64,
    partition: u32,
    now: u128,
) -> (Coordinator, Option<GroupError>) {
    let (after, refusal) = member_request(coordinator, group, topic, member, generation, now);
    (
        after,
        match refusal {
            Some(error) => Some(error),
            None => after.groups[(group, topic)].partition_refusal(member, generation, partition),
        },
    )
}

impl GroupCoordinator {
    /// Whether the offset files of a group have to be read before `member` joins, and for how
    /// many partitions.
    pub fn prepare_join(&self, group: &str, topic: &str, member: &str) -> (needed: Result<
        Option<u32>,
        GroupError,
    >)
        requires
            self.wf(),
        ensures
            needed == if !is_id(group@) || !is_id(topic@) || !is_id(member@) {
                Err::<Option<u32>, GroupError>(GroupError::InvalidId)
            } else if self@.has_group(group@, topic@) {
                Ok(None)
            } else {
                Ok(Some(self@.partition_count(topic@)))
            },
    {
        match validate_id(group) {
            Err(error) => return Err(error),
            Ok(()) => {},
        }
        match validate_id(topic) {
            Err(error) => return Err(error),
            Ok(()) => {},
        }
        match validate_id(member) {
            Err(error) => return Err(error),
            Ok(()) => {},
        }
        if self.groups.contains_key(&(group.to_owned(), topic.to_owned())) {
            Ok(None)
        } else {
            Ok(Some(self.partition_count(topic)))
        }
    }

    /// Makes `member` a member. `files` holds the offset files of a group that is not there yet.
    pub fn join(
        &mut self,
        group: &str,
        topic: &str,
        member: &str,
        files: &Vec<Option<String>>,
        now: u128,
    ) -> (response: Result<JoinGroupResponse, GroupError>)
        requires
            old(self).wf(),
            files@.len() <= u32::MAX,
        ensures
            final(self).wf(),
            advanced(old(self)@, final(self)@),
            ({
                let (after, result) = join_request(
                    old(self)@,
                    group@,
                    topic@,
                    member@,
                    files@,
                    now,
                );
                &&& final(self)@ == after
                &&& match result {
                    Ok((generation, partitions)) => {
                        &&& response matches Ok(joined)
                        &&& joined.generation_value() == generation
                        &&& joined.partition_values() == partitions
                    },
                    Err(error) => response matches Err(found) && found == error,
                }
            }),
    {
        let ghost start = self@;
        match validate_id(group) {
            Err(error) => return Err(error),
            Ok(()) => {},
        }
        match validate_id(topic) {
            Err(error) => return Err(error),
            Ok(()) => {},
        }
        match validate_id(member) {
            Err(error) => return Err(error),
            Ok(()) => {},
        }
        let partition_count: u32 = self.partition_count(topic);
        let mut state = match self.take_group(group, topic) {
            Some(state) => state,
            None => match load_offsets(files) {
                Ok(offsets) => ConsumerGroup::new(offsets),
                Err(error) => {
                    proof {
                        lemma_only_offset_faults(files@);
                    }
                    return Err(error);
                },
            },
        };
        let ghost before = state@;
        let ghost timeout = self.session_timeout;
        let members_expired: bool = expire_members(&mut state, self.session_timeout, now);
        let name = member.to_owned();
        let is_new: bool = !state.members.contains_key(&name);
        state.members.insert(name, now);
        assert(state@ =~= before.live(timeout, now).heard_of(member@, now));
        if is_new || members_expired || state.generation == 0 {
            match rebalance(&mut state, partition_count) {
                Ok(()) => {},
                Err(error) => {
                    self.put_group(group, topic, state);
                    proof {
                        lemma_put_back(start, group@, topic@, state@);
                    }
                    return Err(error);
                },
            }
        }
        let partitions: Vec<u32> = match state.assignments.get(&member.to_owned()) {
            Some(partitions) => partitions.clone(),
            None => Vec::new(),
        };
        assert(partitions@ =~= state@.partitions_of(member@));
        let response = JoinGroupResponse::new(state.generation, partitions);
        self.put_group(group, topic, state);
        proof {
            lemma_put_back(start, group@, topic@, state@);
        }
        Ok(response)
    }

    /// Takes note that `member` is alive.
    pub fn heartbeat(
        &mut self,
        group: &str,
        topic: &str,
        member: &str,
        generation: u64,
        now: u128,
    ) -> (done: Result<(), GroupError>)
        requires
            old(self).wf(),
        ensures
            final(self).wf(),
            advanced(old(self)@, final(self)@),
            ({
                let (after, refusal) = heartbeat_request(
                    old(self)@,
                    group@,
                    topic@,
                    member@,
                    generation,
                    now,
                );
                &&& final(self)@ == after
                &&& done == match refusal {
                    Some(error) => Err::<(), GroupError>(error),
                    None => Ok(()),
                }
            }),
    {
        let ghost start = self@;
        let (mut state, refreshed) = match self.active_group(group, topic, now) {
            Ok(taken) => taken,
            Err(error) => return Err(error),
        };
        let ghost active = state@;
        let mut done: Result<(), GroupError> = Err(GroupError::GenerationOverflow);
        if refreshed {
            done = validate_member(&state, member, generation);
            if done.is_ok() {
                state.members.insert(member.to_owned(), now);
                assert(state@ =~= active.heard_of(member@, now));
            }
        }
        self.put_group(group, topic, state);
        proof {
            lemma_put_back(start, group@, topic@, state@);
            assert(start.with_group(group@, topic@, active).with_group(group@, topic@, state@)
                =~= start.with_group(group@, topic@, state@));
        }
        done
    }

    /// Takes `member` out of its group and deals the partitions out anew.
    pub fn leave(
        &mut self,
        group: &str,
        topic: &str,
        member: &str,
        generation: u64,
        now: u128,
    ) -> (done: Result<(), GroupError>)
        requires
            old(self).wf(),
        ensures
            final(self).wf(),
            advanced(old(self)@, final(self)@),
            ({
                let (after, refusal) = leave_request(
                    old(self)@,
                    group@,
                    topic@,
                    member@,
                    generation,
                    now,
                );
                &&& final(self)@ == after
                &&& done == match refusal {
                    Some(error) => Err::<(), GroupError>(error),
                    None => Ok(()),
                }
            }),
    {
        let ghost start = self@;
        let partition_count: u32 = self.partition_count(topic);
        let (mut state, refreshed) = match self.active_group(group, topic, now) {
            Ok(taken) => taken,
            Err(error) => return Err(error),
        };
        let ghost active = state@;
        let mut done: Result<(), GroupError> = Err(GroupError::GenerationOverflow);
        if refreshed {
            done = validate_member(&state, member, generation);
            if done.is_ok() {
                let _ = state.members.remove(&member.to_owned());
                assert(state@ =~= active.without(member@));
                done = rebalance(&mut state, partition_count);
            }
        }
        self.put_group(group, topic, state);
        proof {
            lemma_put_back(start, group@, topic@, state@);
            assert(start.with_group(group@, topic@, active).with_group(group@, topic@, state@)
                =~= start.with_group(group@, topic@, state@));
        }
        done
    }

    /// Allows a member to fetch from a partition, or refuses.
    pub fn authorize_fetch(&mut self, identity: &GroupIdentity<'_>, partition: u32, now: u128) -> (
        done: Result<(), GroupError>)
        requires
            old(self).wf(),
        ensures
            final(self).wf(),
            advanced(old(self)@, final(self)@),
            ({
                let (after, refusal) = partition_request(
                    old(self)@,
                    identity.group@,
                    identity.topic@,
                    identity.member@,
                    identity.generation,
                    partition,
                    now,
                );
                &&& final(self)@ == after
                &&& done == match refusal {
                    Some(error) => Err::<(), GroupError>(error),
                    None => Ok(()),
                }
            }),
    {
        let ghost start = self@;
        let (state, refreshed) = match self.active_group(identity.group, identity.topic, now) {
            Ok(taken) => taken,
            Err(error) => return Err(error),
        };
        let mut done: Result<(), GroupError> = Err(GroupError::GenerationOverflow);
        if refreshed {
            done = validate_partition(&state, identity.member, identity.generation, partition);
        }
        self.put_group(identity.group, identity.topic, state);
        proof {
            lemma_put_back(start, identity.group@, identity.topic@, state@);
        }
        done
    }

    /// Allows a member to commit an offset, and says what has to be written, or refuses. Once
    /// the file is written, [`GroupCoordinator::committed`] takes note of the offset.
    pub fn commit(
        &mut self,
        identity: &GroupIdentity<'_>,
        partition: u32,
        offset: u64,
        now: u128,
    ) -> (write: Result<OffsetWrite, GroupError>)
        requires
            old(self).wf(),
        ensures
            final(self).wf(),
            advanced(old(self)@, final(self)@),
            ({
                let (after, refusal) = partition_request(
                    old(self)@,
                    identity.group@,
                    identity.topic@,
                    identity.member@,
                    identity.generation,
                    partition,
                    now,
                );
                &&& final(self)@ == after
                &&& match refusal {
                    Some(error) => write matches Err(found) && found == error,
                    None => {
                        &&& write matches Ok(made)
                        &&& made.directory@ == storage::path_below(
                            storage::path_below(old(self)@.offsets_dir, identity.group@),
                            identity.topic@,
                        )
                        &&& made.path@ == offset_file(
                            old(self)@.offsets_dir,
                            identity.group@,
                            identity.topic@,
                            partition as nat,
                        )
                        &&& made.contents@ == offset_line(offset)
                    },
                }
            }),
    {
        match self.authorize_fetch(identity, partition, now) {
            Err(error) => return Err(error),
            Ok(()) => {},
        }
        let group_dir = storage::join_path(self.offsets_dir.as_str(), identity.group);
        let directory = storage::join_path(group_dir.as_str(), identity.topic);
        let path = offset_path(
            self.offsets_dir.as_str(),
            identity.group,
            identity.topic,
            partition,
        );
        let mut contents = text::decimal_text(offset);
        contents.append("\n");
        Ok(OffsetWrite { directory, path, contents })
    }

    /// Takes note of a committed offset.
    pub fn committed(&mut self, group: &str, topic: &str, partition: u32, offset: u64) -> (
        done: Result<(), GroupError>)
        requires
            old(self).wf(),
        ensures
            final(self).wf(),
            advanced(old(self)@, final(self)@),
            if old(self)@.has_group(group@, topic@) {
                &&& done is Ok
                &&& final(self)@ == offset_committed(
                    old(self)@,
                    group@,
                    topic@,
                    partition,
                    offset,
                )
            } else {
                &&& done == Err::<(), GroupError>(GroupError::UnknownGroup)
                &&& final(self)@ == old(self)@
            },
    {
        let ghost start = self@;
        let mut state = match self.take_group(group, topic) {
            Some(state) => state,
            None => return Err(GroupError::UnknownGroup),
        };
        let ghost before = state@;
        state.committed_offsets.insert(partition, offset);
        self.put_group(group, topic, state);
        proof {
            lemma_put_back(start, group@, topic@, state@);
            assert(state@ =~= (Group {
                committed_offsets: before.committed_offsets.insert(partition, offset),
                ..before
            }));
        }
        Ok(())
    }

    /// The committed offset of a partition, from the contents of its offset file, where there is
    /// one.
    pub fn committed_offset(
        &self,
        group: &str,
        topic: &str,
        contents: Option<&str>,
    ) -> (offset: Result<Option<u64>, GroupError>)
        ensures
            offset == if !is_id(group@) || !is_id(topic@) {
                Err::<Option<u64>, GroupError>(GroupError::InvalidId)
            } else {
                match contents {
                    None => Ok(None),
                    Some(found) => match parsed_offset(found@) {
                        Some(value) => Ok(Some(value)),
                        None => Err(GroupError::InvalidOffsetFile),
                    },
                }
            },
    {
        match validate_id(group) {
            Err(error) => return Err(error),
            Ok(()) => {},
        }
        match validate_id(topic) {
            Err(error) => return Err(error),
            Ok(()) => {},
        }
        match contents {
            None => Ok(None),
            Some(found) => match parse_offset(found) {
                Ok(value) => Ok(Some(value)),
                Err(error) => Err(error),
            },
        }
    }
}

/// The only fault that offset files have is that one of them is invalid.
proof fn lemma_only_offset_faults(files: Seq<Option<String>>)
    ensures
        offsets_in(files) is Err ==> offsets_in(files)->Err_0 == GroupError::InvalidOffsetFile,
    decreases files.len(),
{
    if files.len() > 0 {
        lemma_only_offset_faults(files.drop_last());
    }
}

/// A group on a topic, its state, and the committed offsets, in order.
#[derive(Debug)]
pub struct GroupSnapshot {
    pub group: String,
    pub topic: String,
    pub generation: u64,
    pub members: usize,
    pub assigned_partitions: usize,
    pub committed_offsets: Vec<(u32, u64)>,
}

impl GroupSnapshot {
    /// Whether the snapshot is that of a group in this state.
    pub open spec fn shows(self, key: (Seq<char>, Seq<char>), state: Group) -> bool {
        &&& (self.group@, self.topic@) == key
        &&& self.generation == state.generation
        &&& state.members.dom().finite()
        &&& self.members == state.members.dom().len()
        &&& state.assignments.dom().finite()
        &&& self.assigned_partitions == assigned_total(
            sorted::in_order::<String>(state.assignments.dom()),
            state.assignments,
        )
        &&& are_offsets(self.committed_offsets@, state.committed_offsets)
    }
}

/// Whether these are the committed offsets, in order of partitions.
pub open spec fn are_offsets(offsets: Seq<(u32, u64)>, committed: Map<u32, u64>) -> bool {
    &&& sorted::enumerates::<u32>(
        Seq::new(offsets.len(), |i: int| offsets[i].0),
        committed.dom(),
    )
    &&& forall|i: int|
        0 <= i < offsets.len() ==> (#[trigger] offsets[i]).1 == committed[offsets[i].0]
}

/// The group and the topic of each snapshot.
pub open spec fn group_keys(snapshots: Seq<GroupSnapshot>) -> Seq<(Seq<char>, Seq<char>)> {
    Seq::new(snapshots.len(), |i: int| (snapshots[i].group@, snapshots[i].topic@))
}

proof fn lemma_assigned_total(assignments: SortedMap<String, Vec<u32>>, count: int)
    requires
        assignments.wf(),
        0 <= count <= assignments.keys@.len(),
    ensures
        assigned_total(
            assignments.key_values().take(count),
            assignments@.map_values(|partitions: Vec<u32>| partitions@),
        ) == total_len(assignments.values@.take(count)),
    decreases count,
{
    if count > 0 {
        lemma_assigned_total(assignments, count - 1);
        let names = assignments.key_values().take(count);
        let lists = assignments.values@.take(count);
        assignments.lemma_at(count - 1);
        assert(names.drop_last() =~= assignments.key_values().take(count - 1));
        assert(lists.drop_last() =~= assignments.values@.take(count - 1));
        assert(names.last() == assignments.keys@[count - 1]@);
    }
}

proof fn lemma_total_prefix(lists: Seq<Vec<u32>>, count: int)
    requires
        0 <= count <= lists.len(),
    ensures
        total_len(lists.take(count)) <= total_len(lists),
    decreases lists.len(),
{
    if count < lists.len() {
        assert(lists.drop_last().take(count) =~= lists.take(count));
        lemma_total_prefix(lists.drop_last(), count);
    } else {
        assert(lists.take(count) =~= lists);
    }
}

impl ConsumerGroup {
    /// How many partitions are assigned.
    fn assigned_partitions(&self) -> (total: usize)
        requires
            self.wf(),
        ensures
            total == assigned_total(
                sorted::in_order::<String>(self@.assignments.dom()),
                self@.assignments,
            ),
            self@.assignments.dom().finite(),
    {
        let mut total: usize = 0;
        let mut i: usize = 0;
        while i < self.assignments.values.len()
            invariant
                self.wf(),
                i <= self.assignments.values@.len(),
                total == total_len(self.assignments.values@.take(i as int)),
            decreases self.assignments.values@.len() - i,
        {
            proof {
                let lists = self.assignments.values@;
                assert(lists.take(i + 1).drop_last() =~= lists.take(i as int));
                lemma_total_prefix(lists, i + 1);
            }
            total = total + self.assignments.values[i].len();
            i = i + 1;
        }
        proof {
            let count = self.assignments.keys@.len() as int;
            lemma_assigned_total(self.assignments, count);
            self.assignments.lemma_ordered();
            assert(self.assignments.key_values().take(count) =~= self.assignments.key_values());
            assert(self@.assignments.dom() =~= self.assignments@.dom());
        }
        total
    }

    /// The committed offsets by partition.
    fn offsets_by_partition(&self) -> (offsets: Vec<(u32, u64)>)
        requires
            self.wf(),
        ensures
            are_offsets(offsets@, self@.committed_offsets),
    {
        let ghost committed = self.committed_offsets;
        let mut offsets: Vec<(u32, u64)> = Vec::new();
        let mut i: usize = 0;
        while i < self.committed_offsets.len()
            invariant
                self.wf(),
                committed == self.committed_offsets,
                i <= committed.keys@.len(),
                offsets@.len() == i,
                forall|j: int|
                    0 <= j < i ==> #[trigger] offsets@[j] == (
                        committed.keys@[j],
                        committed.values@[j],
                    ),
            decreases committed.keys@.len() - i,
        {
            offsets.push((self.committed_offsets.keys[i], self.committed_offsets.values[i]));
            i = i + 1;
        }
        proof {
            committed.lemma_ordered();
            assert forall|j: int| 0 <= j < offsets@.len() implies (#[trigger] offsets@[j]).1
                == self@.committed_offsets[offsets@[j].0] by {
                committed.lemma_at(j);
            }
            assert(Seq::new(offsets@.len(), |j: int| offsets@[j].0) =~= committed.key_values());
        }
        offsets
    }
}

/// Whether a group and a topic are among the first `count` keys.
spec fn stands_before(
    keys: Seq<(String, String)>,
    count: int,
    group: Seq<char>,
    topic: Seq<char>,
) -> bool {
    exists|j: int| 0 <= j < count && (#[trigger] keys[j]).1@ == topic && keys[j].0@ == group
}

impl GroupCoordinator {
    /// Recovers a group from its offset files.
    pub fn recover_group(&mut self, group: &str, topic: &str, files: &Vec<Option<String>>) -> (
        done: Result<(), GroupError>)
        requires
            old(self).wf(),
            files@.len() <= u32::MAX,
        ensures
            final(self).wf(),
            !old(self)@.has_group(group@, topic@) ==> advanced(old(self)@, final(self)@),
            if !is_id(group@) || !is_id(topic@) {
                &&& done == Err::<(), GroupError>(GroupError::InvalidId)
                &&& final(self)@ == old(self)@
            } else {
                match offsets_in(files@) {
                    Err(error) => done == Err::<(), GroupError>(error) && final(self)@
                        == old(self)@,
                    Ok(offsets) => done is Ok && final(self)@ == old(self)@.with_group(
                        group@,
                        topic@,
                        Group::unjoined(offsets),
                    ),
                }
            },
    {
        match validate_id(group) {
            Err(error) => return Err(error),
            Ok(()) => {},
        }
        match validate_id(topic) {
            Err(error) => return Err(error),
            Ok(()) => {},
        }
        match load_offsets(files) {
            Err(error) => Err(error),
            Ok(offsets) => {
                self.put_group(group, topic, ConsumerGroup::new(offsets));
                Ok(())
            },
        }
    }

    /// Sets the partition count of a topic, and names the groups on the topic, whose offset
    /// files have to be read again.
    pub fn set_topic_partitions(&mut self, topic: &str, partitions: u32) -> (groups: Vec<String>)
        requires
            old(self).wf(),
        ensures
            final(self).wf(),
            advanced(old(self)@, final(self)@),
            final(self)@ == (Coordinator {
                topic_partition_counts: old(self)@.topic_partition_counts.insert(
                    topic@,
                    partitions,
                ),
                ..old(self)@
            }),
            forall|name: Seq<char>|
                #![trigger sorted::values_of(groups@).contains(name)]
                sorted::values_of(groups@).contains(name) <==> old(self)@.has_group(name, topic@),
            sorted::strictly_ascending::<String>(sorted::values_of(groups@)),
    {
        let ghost before = *self;
        self.topic_partition_counts.insert(topic.to_owned(), partitions);
        let mut names: Vec<String> = Vec::new();
        let wanted = topic.to_owned();
        let mut i: usize = 0;
        let ghost keys = self.groups.keys@;
        while i < self.groups.len()
            invariant
                self.wf(),
                self.groups == before.groups,
                keys == self.groups.keys@,
                wanted@ == topic@,
                i <= keys.len(),
                forall|j: int|
                    #![trigger keys[j]]
                    0 <= j < i && keys[j].1@ == topic@ ==> sorted::values_of(names@).contains(
                        keys[j].0@,
                    ),
                forall|k: int|
                    0 <= k < names@.len() ==> stands_before(
                        keys,
                        i as int,
                        (#[trigger] names@[k])@,
                        topic@,
                    ),
                sorted::strictly_ascending::<String>(sorted::values_of(names@)),
            decreases keys.len() - i,
        {
            let ghost listed = names@;
            if sorted::same_key(&self.groups.keys[i].1, &wanted) {
                let ghost so_far = names@;
                let ghost added = keys[i as int].0@;
                names.push(self.groups.keys[i].0.clone());
                proof {
                    let values = sorted::values_of(names@);
                    let old_values = sorted::values_of(so_far);
                    assert(values =~= old_values.push(added));
                    assert forall|a: int, b: int|
                        #![trigger values[a], values[b]]
                        0 <= a < b < values.len() implies String::before(values[a], values[b]) by {
                        if b < so_far.len() {
                            assert(String::before(old_values[a], old_values[b]));
                        } else {
                            assert(stands_before(keys, i as int, so_far[a]@, topic@));
                            let j = choose|j: int|
                                0 <= j < i && (#[trigger] keys[j]).1@ == topic@ && keys[j].0@
                                    == so_far[a]@;
                            assert(<(String, String) as Key>::before(
                                keys[j].value(),
                                keys[i as int].value(),
                            ));
                            String::before_irreflexive(topic@);
                        }
                    }
                    assert forall|j: int|
                        #![trigger keys[j]]
                        0 <= j < i + 1 && keys[j].1@ == topic@ implies values.contains(
                        keys[j].0@,
                    ) by {
                        if j == i {
                            assert(values[so_far.len() as int] == added);
                        } else {
                            let k = choose|k: int|
                                0 <= k < old_values.len() && old_values[k] == keys[j].0@;
                            assert(old_values.contains(keys[j].0@));
                            assert(values[k] == keys[j].0@);
                        }
                    }
                }
            }
            proof {
                assert forall|k: int| 0 <= k < names@.len() implies stands_before(
                    keys,
                    i + 1,
                    (#[trigger] names@[k])@,
                    topic@,
                ) by {
                    if k < listed.len() {
                        assert(names@[k] == listed[k]);
                        assert(stands_before(keys, i as int, listed[k]@, topic@));
                    } else {
                        assert(keys[i as int].1@ == topic@);
                    }
                }
            }
            i = i + 1;
        }
        proof {
            assert(self@.topic_partition_counts =~= before@.topic_partition_counts.insert(
                topic@,
                partitions,
            ));
            let values = sorted::values_of(names@);
            assert forall|name: Seq<char>|
                #![trigger values.contains(name)]
                values.contains(name) <==> before@.has_group(name, topic@) by {
                if values.contains(name) {
                    let k = choose|k: int| 0 <= k < values.len() && values[k] == name;
                    assert(names@[k]@ == name);
                    assert(stands_before(keys, i as int, name, topic@));
                    let j = choose|j: int|
                        0 <= j < i && (#[trigger] keys[j]).1@ == topic@ && keys[j].0@
                            == names@[k]@;
                    before.groups.lemma_at(j);
                }
                if before@.has_group(name, topic@) {
                    let j = before.groups.lemma_place((name, topic@));
                    assert(keys[j].1@ == topic@);
                }
            }
        }
        names
    }

    /// Takes in the offset files of a group that were read again.
    pub fn restore_offsets(&mut self, group: &str, topic: &str, files: &Vec<Option<String>>) -> (
        done: Result<(), GroupError>)
        requires
            old(self).wf(),
            files@.len() <= u32::MAX,
        ensures
            final(self).wf(),
            advanced(old(self)@, final(self)@),
            match offsets_in(files@) {
                Err(error) => done == Err::<(), GroupError>(error) && final(self)@ == old(self)@,
                Ok(offsets) => if old(self)@.has_group(group@, topic@) {
                    let before = old(self)@.groups[(group@, topic@)];
                    &&& done is Ok
                    &&& final(self)@ == old(self)@.with_group(
                        group@,
                        topic@,
                        before.with_offsets(offsets),
                    )
                } else {
                    &&& done == Err::<(), GroupError>(GroupError::UnknownGroup)
                    &&& final(self)@ == old(self)@
                },
            },
    {
        let ghost start = self@;
        let loaded = match load_offsets(files) {
            Ok(loaded) => loaded,
            Err(error) => return Err(error),
        };
        let mut state = match self.take_group(group, topic) {
            Some(state) => state,
            None => return Err(GroupError::UnknownGroup),
        };
        let ghost before = state@;
        let mut i: usize = 0;
        while i < loaded.len()
            invariant
                state.wf(),
                loaded.wf(),
                i <= loaded.keys@.len(),
                state@.generation == before.generation,
                state@.members == before.members,
                state@.assignments == before.assignments,
                forall|partition: u32| #[trigger]
                    state@.committed_offsets.dom().contains(partition) <==> (
                    before.committed_offsets.dom().contains(partition) || exists|j: int|
                        0 <= j < i && #[trigger] loaded.keys@[j] == partition),
                forall|j: int|
                    0 <= j < i ==> state@.committed_offsets[#[trigger] loaded.keys@[j]]
                        == loaded.values@[j],
                forall|partition: u32| #[trigger]
                    before.committed_offsets.dom().contains(partition) && !(exists|j: int|
                        0 <= j < i && #[trigger] loaded.keys@[j] == partition)
                        ==> state@.committed_offsets[partition]
                        == before.committed_offsets[partition],
            decreases loaded.keys@.len() - i,
        {
            proof {
                loaded.lemma_distinct();
            }
            let ghost previous = state@.committed_offsets;
            state.committed_offsets.insert(loaded.keys[i], loaded.values[i]);
            proof {
                let key = loaded.keys@[i as int];
                assert(state@.committed_offsets == previous.insert(key, loaded.values@[i as int]));
                assert forall|partition: u32| #[trigger]
                    state@.committed_offsets.dom().contains(partition) <==> (
                    before.committed_offsets.dom().contains(partition) || exists|j: int|
                        0 <= j < i + 1 && #[trigger] loaded.keys@[j] == partition) by {
                    if partition == key {
                        assert(loaded.keys@[i as int] == partition);
                    } else {
                        assert(previous.dom().contains(partition)
                            == state@.committed_offsets.dom().contains(partition));
                    }
                }
                assert forall|partition: u32| #[trigger]
                    before.committed_offsets.dom().contains(partition) && !(exists|j: int|
                        0 <= j < i + 1 && #[trigger] loaded.keys@[j]
                            == partition) implies state@.committed_offsets[partition]
                    == before.committed_offsets[partition] by {
                    assert(partition != key);
                }
            }
            i = i + 1;
        }
        proof {
            let merged = before.committed_offsets.union_prefer_right(loaded@);
            assert forall|partition: u32| #[trigger]
                state@.committed_offsets.dom().contains(partition) <==> merged.dom().contains(
                    partition,
                ) by {
                if loaded@.dom().contains(partition) {
                    let j = loaded.lemma_place(partition);
                    assert(loaded.keys@[j] == partition);
                }
                if exists|j: int| 0 <= j < i && #[trigger] loaded.keys@[j] == partition {
                    let j = choose|j: int| 0 <= j < i && #[trigger] loaded.keys@[j] == partition;
                    loaded.lemma_at(j);
                }
            }
            assert forall|partition: u32| #[trigger]
                merged.dom().contains(partition) implies state@.committed_offsets[partition]
                == merged[partition] by {
                if loaded@.dom().contains(partition) {
                    let j = loaded.lemma_place(partition);
                    loaded.lemma_at(j);
                } else {
                    if exists|j: int| 0 <= j < i && #[trigger] loaded.keys@[j] == partition {
                        let j = choose|j: int|
                            0 <= j < i && #[trigger] loaded.keys@[j] == partition;
                        loaded.lemma_at(j);
                    }
                }
            }
            assert(state@.committed_offsets =~= merged);
            lemma_put_back(start, group@, topic@, state@);
        }
        self.put_group(group, topic, state);
        Ok(())
    }

    /// Drops the silent members of all groups.
    pub fn expire_sessions(&mut self, now: u128) -> (done: Result<(), GroupError>)
        requires
            old(self).wf(),
        ensures
            final(self).wf(),
            advanced(old(self)@, final(self)@),
            final(self)@ == (Coordinator { groups: final(self)@.groups, ..old(self)@ }),
            final(self)@.groups.dom() == old(self)@.groups.dom(),
            forall|group: Seq<char>, topic: Seq<char>| #[trigger]
                old(self)@.has_group(group, topic) ==> {
                    let after = final(self)@.groups[(group, topic)];
                    let (state, refreshed) = old(self)@.refreshed(group, topic, now);
                    &&& done is Ok ==> refreshed && after == state
                    &&& after == state || after == old(self)@.groups[(group, topic)]
                },
            done matches Err(error) ==> error == GroupError::GenerationOverflow && exists|
                group: Seq<char>,
                topic: Seq<char>,
            | #[trigger]
                old(self)@.has_group(group, topic) && !old(self)@.refreshed(group, topic, now).1,
    {
        let ghost before = *self;
        let mut i: usize = 0;
        while i < self.groups.len()
            invariant
                before == *old(self),
                self.wf(),
                before.wf(),
                self.groups.keys == before.groups.keys,
                self.groups.values@.len() == before.groups.values@.len(),
                self.offsets_dir == before.offsets_dir,
                self.default_partition_count == before.default_partition_count,
                self.topic_partition_counts == before.topic_partition_counts,
                self.session_timeout == before.session_timeout,
                i <= before.groups.keys@.len(),
                forall|j: int|
                    i <= j < before.groups.keys@.len() ==> #[trigger] self.groups.values@[j]
                        == before.groups.values@[j],
                forall|j: int|
                    0 <= j < i ==> refreshed_at(before, j, now) == (
                        (#[trigger] self.groups.values@[j])@,
                        true,
                    ),
            decreases before.groups.keys@.len() - i,
        {
            let ghost current = *self;
            let count: u32 = self.partition_count(self.groups.keys[i].1.as_str());
            let timeout: u128 = self.session_timeout;
            proof {
                before.groups.lemma_at(i as int);
                current.groups.lemma_at(i as int);
            }
            let (state, refreshed) = {
                let mut state = self.groups.take_value(i, ConsumerGroup::new(SortedMap::new()));
                let ghost start = state@;
                let mut refreshed: bool = true;
                if expire_members(&mut state, timeout, now) {
                    refreshed = rebalance(&mut state, count).is_ok();
                } else {
                    assert(state@.members =~= start.members);
                    assert(state@ =~= start);
                }
                (state, refreshed)
            };
            let ghost after = state;
            let _ = self.groups.take_value(i, state);
            proof {
                assert(self.groups.values@ =~= current.groups.values@.update(i as int, after));
                lemma_values_wf(*self, current, i as int);
            }
            assert(refreshed_at(before, i as int, now) == (after@, refreshed));
            if !refreshed {
                proof {
                    lemma_sessions(before, *self, now);
                    let key = before.groups.keys@[i as int].value();
                    assert(before@.has_group(key.0, key.1));
                }
                return Err(GroupError::GenerationOverflow);
            }
            i = i + 1;
        }
        proof {
            lemma_sessions(before, *self, now);
            assert forall|group: Seq<char>, topic: Seq<char>| #[trigger]
                before@.has_group(group, topic) implies {
                let (state, refreshed) = before@.refreshed(group, topic, now);
                refreshed && self@.groups[(group, topic)] == state
            } by {
                let j = before.groups.lemma_place((group, topic));
                before.groups.lemma_at(j);
                self.groups.lemma_at(j);
                assert(refreshed_at(before, j, now) == (self.groups.values@[j]@, true));
            }
        }
        Ok(())
    }
}

/// What becomes of the group at a place once its silent members are dropped.
spec fn refreshed_at(coordinator: GroupCoordinator, place: int, now: u128) -> (Group, bool) {
    coordinator.groups.values@[place]@.refreshed(
        coordinator.session_timeout,
        now,
        coordinator@.partition_count(coordinator.groups.keys@[place].value().1),
    )
}

proof fn lemma_values_wf(after: GroupCoordinator, before: GroupCoordinator, place: int)
    requires
        before.wf(),
        after.topic_partition_counts == before.topic_partition_counts,
        after.groups.keys == before.groups.keys,
        0 <= place < before.groups.keys@.len(),
        after.groups.values@ == before.groups.values@.update(place, after.groups.values@[place]),
        after.groups.values@[place].wf(),
    ensures
        after.wf(),
{
    assert(after.groups.wf());
    assert forall|key: (Seq<char>, Seq<char>)| #[trigger]
        after.groups@.dom().contains(key) implies after.groups@[key].wf() by {
        let j = after.groups.lemma_place(key);
        after.groups.lemma_at(j);
        before.groups.lemma_at(j);
    }
}

/// Groups at the same places, each refreshed or as it was.
proof fn lemma_sessions(before: GroupCoordinator, after: GroupCoordinator, now: u128)
    requires
        before.wf(),
        after.wf(),
        after.groups.keys == before.groups.keys,
        forall|j: int|
            0 <= j < before.groups.keys@.len() ==> (#[trigger] after.groups.values@[j])@
                == refreshed_at(before, j, now).0 || after.groups.values@[j]
                == before.groups.values@[j],
    ensures
        after@.groups.dom() == before@.groups.dom(),
        forall|group: Seq<char>, topic: Seq<char>| #[trigger]
            before@.has_group(group, topic) ==> {
                let state = after@.groups[(group, topic)];
                state == before@.refreshed(group, topic, now).0 || state == before@.groups[(
                    group,
                    topic,
                )]
            },
        forall|j: int|
            #![trigger before.groups.keys@[j]]
            0 <= j < before.groups.keys@.len() ==> {
                let key = before.groups.keys@[j].value();
                &&& before@.has_group(key.0, key.1)
                &&& before@.refreshed(key.0, key.1, now) == refreshed_at(before, j, now)
            },
{
    assert forall|key: (Seq<char>, Seq<char>)| after@.groups.dom().contains(key)
        <==> before@.groups.dom().contains(key) by {
        if after@.groups.dom().contains(key) {
            let j = after.groups.lemma_place(key);
            before.groups.lemma_at(j);
        }
        if before@.groups.dom().contains(key) {
            let j = before.groups.lemma_place(key);
            after.groups.lemma_at(j);
        }
    }
    assert(after@.groups.dom() =~= before@.groups.dom());
    assert forall|group: Seq<char>, topic: Seq<char>| #[trigger]
        before@.has_group(group, topic) implies {
        let state = after@.groups[(group, topic)];
        state == before@.refreshed(group, topic, now).0 || state == before@.groups[(group, topic)]
    } by {
        let j = before.groups.lemma_place((group, topic));
        before.groups.lemma_at(j);
        after.groups.lemma_at(j);
        assert(after.groups.values@[j]@ == refreshed_at(before, j, now).0
            || after.groups.values@[j] == before.groups.values@[j]);
    }
    assert forall|j: int|
        #![trigger before.groups.keys@[j]]
        0 <= j < before.groups.keys@.len() implies {
        let key = before.groups.keys@[j].value();
        &&& before@.has_group(key.0, key.1)
        &&& before@.refreshed(key.0, key.1, now) == refreshed_at(before, j, now)
    } by {
        before.groups.lemma_at(j);
    }
}

impl GroupCoordinator {
    /// All groups, by group and topic.
    pub fn snapshot(&self) -> (snapshots: Vec<GroupSnapshot>)
        requires
            self.wf(),
        ensures
            sorted::enumerates::<(String, String)>(group_keys(snapshots@), self@.groups.dom()),
            forall|i: int|
                0 <= i < snapshots@.len() ==> (#[trigger] snapshots@[i]).shows(
                    group_keys(snapshots@)[i],
                    self@.groups[group_keys(snapshots@)[i]],
                ),
    {
        let ghost order = self.groups.key_values();
        proof {
            assert(self@.groups.dom() =~= self.groups@.dom());
            self.groups.lemma_ordered();
        }
        let mut snapshots: Vec<GroupSnapshot> = Vec::new();
        let mut i: usize = 0;
        while i < self.groups.len()
            invariant
                self.wf(),
                i <= self.groups.keys@.len(),
                order == self.groups.key_values(),
                snapshots@.len() == i,
                forall|j: int|
                    0 <= j < i ==> (#[trigger] snapshots@[j]).shows(
                        order[j],
                        self@.groups[order[j]],
                    ),
            decreases self.groups.keys@.len() - i,
        {
            proof {
                self.groups.lemma_at(i as int);
            }
            let key = &self.groups.keys[i];
            let state = &self.groups.values[i];
            proof {
                state.members.lemma_ordered();
            }
            let snapshot = GroupSnapshot {
                group: key.0.clone(),
                topic: key.1.clone(),
                generation: state.generation,
                members: state.members.len(),
                assigned_partitions: state.assigned_partitions(),
                committed_offsets: state.offsets_by_partition(),
            };
            assert(snapshot.shows(order[i as int], self@.groups[order[i as int]]));
            snapshots.push(snapshot);
            i = i + 1;
        }
        assert(group_keys(snapshots@) =~= order);
        snapshots
    }
}

/// After a rebalance each partition is assigned to exactly one member, and to nobody else.
pub proof fn each_partition_has_one_member(group: Group, count: u32, partition: u32)
    requires
        group.members.dom().finite(),
        group.members.dom().len() > 0,
        partition < count,
    ensures
        ({
            let after = group.rebalanced(count);
            let members = sorted::in_order::<String>(group.members.dom());
            let owner = members[partition as int % members.len() as int];
            &&& after.members.dom().contains(owner)
            &&& after.partitions_of(owner).contains(partition)
            &&& forall|name: Seq<char>|
                #![trigger after.partitions_of(name)]
                after.partitions_of(name).contains(partition) ==> name == owner
        }),
{
    let after = group.rebalanced(count);
    let members = sorted::in_order::<String>(group.members.dom());
    sorted::lemma_finite_order::<String>(group.members.dom());
    sorted::lemma_order_len::<String>(members, group.members.dom());
    let total = members.len() as int;
    let index = partition as int % total;
    let owner = members[index];
    assert(0 <= index < total && index <= partition) by (nonlinear_arith)
        requires
            index == partition as int % total,
            total > 0,
    ;
    assert forall|i: int, j: int|
        0 <= i < members.len() && 0 <= j < members.len() && #[trigger] members[i]
            == #[trigger] members[j] implies i == j by {
        String::before_irreflexive(members[i]);
        if i < j {
            assert(String::before(members[i], members[j]));
        } else if j < i {
            assert(String::before(members[j], members[i]));
        }
    }
    assert(members.contains(owner));
    assert(group.members.dom().contains(owner));
    assert(members.index_of(owner) == index);
    lemma_share_contains(index, total, count as nat, partition);
    assert forall|name: Seq<char>|
        #![trigger after.partitions_of(name)]
        after.partitions_of(name).contains(partition) implies name == owner by {
        let at = members.index_of(name);
        lemma_share_contains(at, total, count as nat, partition);
    }
}

/// Only members have partitions after a rebalance, and only partitions below the count.
pub proof fn only_members_have_partitions(
    group: Group,
    count: u32,
    name: Seq<char>,
    partition: u32,
)
    requires
        group.members.dom().finite(),
        group.rebalanced(count).partitions_of(name).contains(partition),
    ensures
        group.rebalanced(count).members.dom().contains(name),
        partition < count,
{
    let members = sorted::in_order::<String>(group.members.dom());
    sorted::lemma_finite_order::<String>(group.members.dom());
    assert(members.contains(name));
    lemma_share_contains(members.index_of(name), members.len() as int, count as nat, partition);
}

/// A rebalance makes every request of an earlier generation stale.
pub proof fn rebalance_outdates_generations(
    group: Group,
    count: u32,
    member: Seq<char>,
    generation: u64,
)
    requires
        group.generation < u64::MAX,
        generation <= group.generation,
    ensures
        group.rebalanced(count).member_refusal(member, generation) == Some(
            GroupError::StaleGeneration {
                expected: (group.generation + 1) as u64,
                actual: generation,
            },
        ),
{
}

/// Generations only go up: what two steps of a coordinator that keep to that lead to keeps to it
/// as well.
pub proof fn generations_only_advance(before: Coordinator, between: Coordinator, after: Coordinator)
    requires
        advanced(before, between),
        advanced(between, after),
    ensures
        advanced(before, after),
{
    assert forall|group: Seq<char>, topic: Seq<char>| #[trigger]
        before.has_group(group, topic) implies after.has_group(group, topic) && before.groups[(
        group,
        topic,
    )].generation <= after.groups[(group, topic)].generation by {
        assert(between.has_group(group, topic));
    }
}

/// A generation that is over stays over: whatever a coordinator was asked since, a heartbeat, a
/// fetch, a commit or a leave of that generation is refused as stale. The one other refusal is
/// that of a group without a further generation that has lost a member.
pub proof fn outdated_generation_stays_refused(
    before: Coordinator,
    after: Coordinator,
    group: Seq<char>,
    topic: Seq<char>,
    member: Seq<char>,
    generation: u64,
    partition: u32,
    now: u128,
)
    requires
        advanced(before, after),
        before.has_group(group, topic),
        generation < before.groups[(group, topic)].generation,
    ensures
        ({
            let (state, refreshed) = after.refreshed(group, topic, now);
            let refusal = Some(
                if refreshed {
                    GroupError::StaleGeneration { expected: state.generation, actual: generation }
                } else {
                    GroupError::GenerationOverflow
                },
            );
            &&& heartbeat_request(after, group, topic, member, generation, now).1 == refusal
            &&& leave_request(after, group, topic, member, generation, now).1 == refusal
            &&& partition_request(
                after,
                group,
                topic,
                member,
                generation,
                partition,
                now,
            ).1 == refusal
        }),
{
    assert(after.has_group(group, topic));
}

/// A member that leaves ends the generation of its group.
pub proof fn leaving_ends_generation(
    coordinator: Coordinator,
    group: Seq<char>,
    topic: Seq<char>,
    member: Seq<char>,
    generation: u64,
    now: u128,
)
    requires
        leave_request(coordinator, group, topic, member, generation, now).1 is None,
    ensures
        ({
            let after = leave_request(coordinator, group, topic, member, generation, now).0;
            &&& after.has_group(group, topic)
            &&& generation < after.groups[(group, topic)].generation
            &&& !after.groups[(group, topic)].members.dom().contains(member)
        }),
{
}

/// A member that was heard of stays in its group until it has been silent for longer than the
/// timeout.
pub proof fn member_lives_through_timeout(
    group: Group,
    member: Seq<char>,
    heard: u128,
    timeout: u128,
    now: u128,
)
    ensures
        group.heard_of(member, heard).live(timeout, now).members.dom().contains(member) <==> now
            - heard <= timeout,
{
}

/// What a commit writes is read back as the committed offset.
pub proof fn committed_offset_is_read_back(offset: u64)
    ensures
        parsed_offset(offset_line(offset)) == Some(offset),
{
    text::lemma_line_parses(offset as nat, u64::MAX as nat);
}

/// Texts without a slash that are followed by one end at the first slash.
proof fn lemma_first_slash(a: Seq<char>, a_rest: Seq<char>, b: Seq<char>, b_rest: Seq<char>)
    requires
        a.push('/') + a_rest == b.push('/') + b_rest,
        text::is_name(a),
        text::is_name(b),
    ensures
        a == b,
        a_rest == b_rest,
{
    let whole = a.push('/') + a_rest;
    let other = b.push('/') + b_rest;
    assert(whole[a.len() as int] == '/');
    assert(other[b.len() as int] == '/');
    if a.len() < b.len() {
        assert(text::is_name_char(b[a.len() as int]));
        assert(other[a.len() as int] == b[a.len() as int]);
    } else if b.len() < a.len() {
        assert(text::is_name_char(a[b.len() as int]));
        assert(whole[b.len() as int] == a[b.len() as int]);
    }
    assert(a =~= whole.take(a.len() as int));
    assert(b =~= other.take(b.len() as int));
    assert(a_rest =~= whole.skip(a.len() as int + 1));
    assert(b_rest =~= other.skip(b.len() as int + 1));
}

/// A name below a directory, spelled out.
proof fn lemma_below(dir: Seq<char>, group: Seq<char>, topic: Seq<char>, partition: nat)
    requires
        text::is_name(group),
        text::is_name(topic),
    ensures
        ({
            let base = if dir.len() == 0 || dir.last() == '/' {
                dir
            } else {
                dir.push('/')
            };
            offset_file(dir, group, topic, partition) == base + (group.push('/') + (topic.push(
                '/',
            ) + (text::decimal(partition) + ".offset"@)))
        }),
{
    let group_dir = storage::path_below(dir, group);
    let topic_dir = storage::path_below(group_dir, topic);
    assert(text::is_name_char(group.last()));
    assert(text::is_name_char(topic.last()));
    assert(group_dir.last() == group.last());
    assert(topic_dir.last() == topic.last());
    let base = if dir.len() == 0 || dir.last() == '/' {
        dir
    } else {
        dir.push('/')
    };
    let name = text::decimal(partition) + ".offset"@;
    assert(offset_file(dir, group, topic, partition) =~= base + (group.push('/') + (topic.push('/')
        + name)));
}

/// Different partitions, topics and groups never share an offset file.
pub proof fn offset_files_are_distinct(
    dir: Seq<char>,
    group_a: Seq<char>,
    topic_a: Seq<char>,
    partition_a: u32,
    group_b: Seq<char>,
    topic_b: Seq<char>,
    partition_b: u32,
)
    requires
        is_id(group_a),
        is_id(topic_a),
        is_id(group_b),
        is_id(topic_b),
        offset_file(dir, group_a, topic_a, partition_a as nat) == offset_file(
            dir,
            group_b,
            topic_b,
            partition_b as nat,
        ),
    ensures
        group_a == group_b,
        topic_a == topic_b,
        partition_a == partition_b,
{
    lemma_below(dir, group_a, topic_a, partition_a as nat);
    lemma_below(dir, group_b, topic_b, partition_b as nat);
    let base = if dir.len() == 0 || dir.last() == '/' {
        dir
    } else {
        dir.push('/')
    };
    let digits_a = text::decimal(partition_a as nat);
    let digits_b = text::decimal(partition_b as nat);
    let name_a = digits_a + ".offset"@;
    let name_b = digits_b + ".offset"@;
    let topic_rest_a = topic_a.push('/') + name_a;
    let topic_rest_b = topic_b.push('/') + name_b;
    let rest_a = group_a.push('/') + topic_rest_a;
    let rest_b = group_b.push('/') + topic_rest_b;
    assert((base + rest_a).skip(base.len() as int) =~= rest_a);
    assert((base + rest_b).skip(base.len() as int) =~= rest_b);
    lemma_first_slash(group_a, topic_rest_a, group_b, topic_rest_b);
    lemma_first_slash(topic_a, name_a, topic_b, name_b);
    assert(digits_a =~= name_a.take(name_a.len() - ".offset"@.len()));
    assert(digits_b =~= name_b.take(name_b.len() - ".offset"@.len()));
    text::lemma_decimal_injective(partition_a as nat, partition_b as nat);
}

/// Whether a member has a partition.
pub open spec fn owns(group: Group, name: Seq<char>, partition: u32) -> bool {
    group.assignments.dom().contains(name) && group.assignments[name].contains(partition)
}

/// Whether somebody has a partition.
pub open spec fn has_owner(group: Group, partition: u32) -> bool {
    exists|name: Seq<char>| owns(group, name, partition)
}

/// How many partitions a member has.
pub open spec fn owned(group: Group, name: Seq<char>) -> nat {
    if group.assignments.dom().contains(name) {
        group.assignments[name].len()
    } else {
        0
    }
}

/// Whether each partition below `count` has exactly one owner as long as there are members, only
/// members own partitions, the members own equally many but for one, and each list is ascending.
pub open spec fn dealt_out(group: Group, count: u32) -> bool {
    &&& forall|name: Seq<char>, partition: u32| #[trigger]
        owns(group, name, partition) ==> group.members.dom().contains(name) && partition < count
    &&& forall|a: Seq<char>, b: Seq<char>, partition: u32|
        #![trigger owns(group, a, partition), owns(group, b, partition)]
        owns(group, a, partition) && owns(group, b, partition) ==> a == b
    &&& forall|partition: u32|
        partition < count && group.members.dom() != Set::<Seq<char>>::empty()
            ==> #[trigger] has_owner(group, partition)
    &&& forall|a: Seq<char>, b: Seq<char>|
        #![trigger owned(group, a), owned(group, b)]
        group.members.dom().contains(a) && group.members.dom().contains(b) ==> owned(group, a)
            <= owned(group, b) + 1
    &&& forall|name: Seq<char>, i: int, j: int|
        #![trigger group.assignments[name][i], group.assignments[name][j]]
        group.assignments.dom().contains(name) && 0 <= i < j < group.assignments[name].len()
            ==> group.assignments[name][i] < group.assignments[name][j]
}

proof fn lemma_share_size(index: int, total: int, count: nat)
    requires
        0 <= index < total,
        count <= u32::MAX,
    ensures
        share(index, total, count).len() == count as int / total + if index < count as int
            % total {
            1int
        } else {
            0int
        },
        forall|i: int, j: int|
            #![trigger share(index, total, count)[i], share(index, total, count)[j]]
            0 <= i < j < share(index, total, count).len() ==> share(index, total, count)[i]
                < share(index, total, count)[j],
        forall|i: int|
            0 <= i < share(index, total, count).len() ==> #[trigger] share(index, total, count)[i]
                < count,
    decreases count,
{
    if count == 0 {
        assert(0int / total == 0 && 0int % total == 0) by (nonlinear_arith)
            requires
                total > 0,
        ;
    } else {
        let fewer = count - 1;
        lemma_share_size(index, total, fewer as nat);
        let quotient = fewer / total;
        let rest = fewer % total;
        assert(fewer == quotient * total + rest && 0 <= rest < total) by (nonlinear_arith)
            requires
                total > 0,
                quotient == fewer / total,
                rest == fewer % total,
        ;
        if rest + 1 < total {
            assert(count as int == quotient * total + (rest + 1));
            vstd::arithmetic::div_mod::lemma_fundamental_div_mod_converse(
                count as int,
                total,
                quotient,
                rest + 1,
            );
        } else {
            assert(count as int == (quotient + 1) * total + 0) by (nonlinear_arith)
                requires
                    count as int == fewer + 1,
                    fewer == quotient * total + rest,
                    rest + 1 == total,
            ;
            vstd::arithmetic::div_mod::lemma_fundamental_div_mod_converse(
                count as int,
                total,
                quotient + 1,
                0,
            );
        }
    }
}

/// A rebalance starts the next generation and deals all partitions out, with the members and the
/// committed offsets as they were.
pub proof fn rebalance_deals_out(group: Group, count: u32)
    requires
        group.members.dom().finite(),
        group.generation < u64::MAX,
    ensures
        dealt_out(group.rebalanced(count), count),
        group.rebalanced(count).generation == group.generation + 1,
        group.rebalanced(count).members == group.members,
        group.rebalanced(count).committed_offsets == group.committed_offsets,
{
    let after = group.rebalanced(count);
    let members = sorted::in_order::<String>(group.members.dom());
    let total = members.len() as int;
    sorted::lemma_finite_order::<String>(group.members.dom());
    sorted::lemma_order_len::<String>(members, group.members.dom());
    assert forall|name: Seq<char>, partition: u32| #[trigger]
        owns(after, name, partition) implies group.members.dom().contains(name) && partition
        < count by {
        assert(after.partitions_of(name).contains(partition));
        only_members_have_partitions(group, count, name, partition);
    }
    assert forall|a: Seq<char>, b: Seq<char>, partition: u32|
        #![trigger owns(after, a, partition), owns(after, b, partition)]
        owns(after, a, partition) && owns(after, b, partition) implies a == b by {
        assert(group.members.dom().contains(a));
        assert(members.contains(a));
        each_partition_has_one_member(group, count, partition);
        assert(after.partitions_of(a).contains(partition));
        assert(after.partitions_of(b).contains(partition));
    }
    assert forall|partition: u32|
        partition < count && after.members.dom() != Set::<Seq<char>>::empty()
            implies #[trigger] has_owner(after, partition) by {
        if group.members.dom().len() == 0 {
            assert(group.members.dom() =~= Set::empty());
        }
        each_partition_has_one_member(group, count, partition);
        let owner = members[partition as int % total];
        assert(after.partitions_of(owner).contains(partition));
        assert(owns(after, owner, partition));
    }
    let base = count as int / total;
    assert forall|a: Seq<char>| group.members.dom().contains(a) implies base <= #[trigger] owned(
        after,
        a,
    ) <= base + 1 by {
        assert(members.contains(a));
        let at = members.index_of(a);
        assert(0 <= at < total && members[at] == a);
        lemma_share_size(at, total, count as nat);
        if at >= count {
            assert(count as int / total == 0) by (nonlinear_arith)
                requires
                    0 <= count < total,
            ;
        }
    }
    assert forall|a: Seq<char>, b: Seq<char>|
        #![trigger owned(after, a), owned(after, b)]
        after.members.dom().contains(a) && after.members.dom().contains(b) implies owned(after, a)
        <= owned(after, b) + 1 by {
        assert(group.members.dom().contains(a) && group.members.dom().contains(b));
    }
    assert forall|name: Seq<char>, i: int, j: int|
        #![trigger after.assignments[name][i], after.assignments[name][j]]
        after.assignments.dom().contains(name) && 0 <= i < j
            < after.assignments[name].len() implies after.assignments[name][i]
        < after.assignments[name][j] by {
        let at = members.index_of(name);
        assert(members.contains(name));
        assert(0 <= at < total && members[at] == name);
        lemma_share_size(at, total, count as nat);
    }
}

/// Whether every member was heard of within the timeout.
pub open spec fn all_heard(members: Map<Seq<char>, u128>, timeout: u128, now: u128) -> bool {
    forall|name: Seq<char>| #[trigger]
        members.dom().contains(name) ==> now - members[name] <= timeout
}

/// A coordinator answers a member by its group alone, as long as all members were heard of within
/// the timeout: a heartbeat, a fetch or a commit is accepted in the group's generation, from its
/// members, on their partitions; and the first of these that is not met is what the refusal tells.
/// None of them changes the group, but that an accepted heartbeat renews the member's session.
pub proof fn members_are_answered_by_their_group(
    coordinator: Coordinator,
    group: Seq<char>,
    topic: Seq<char>,
    member: Seq<char>,
    generation: u64,
    partition: u32,
    now: u128,
)
    requires
        coordinator.has_group(group, topic),
        all_heard(
            coordinator.groups[(group, topic)].members,
            coordinator.session_timeout,
            now,
        ),
    ensures
        ({
            let state = coordinator.groups[(group, topic)];
            let beat = heartbeat_request(coordinator, group, topic, member, generation, now);
            let asked = partition_request(
                coordinator,
                group,
                topic,
                member,
                generation,
                partition,
                now,
            );
            let stale = GroupError::StaleGeneration {
                expected: state.generation,
                actual: generation,
            };
            &&& generation != state.generation ==> beat.1 == Some(stale) && asked.1 == Some(stale)
            &&& generation == state.generation && !state.members.dom().contains(member)
                ==> beat.1 == Some(GroupError::UnknownMember) && asked.1 == Some(
                GroupError::UnknownMember,
            )
            &&& generation == state.generation && state.members.dom().contains(member)
                ==> beat.1 is None && asked.1 == if owns(state, member, partition) {
                None
            } else {
                Some(GroupError::PartitionNotAssigned(partition))
            }
            &&& asked.0.groups =~= coordinator.groups
            &&& beat.1 is Some ==> beat.0.groups =~= coordinator.groups
            &&& beat.1 is None ==> beat.0.groups =~= coordinator.groups.insert(
                (group, topic),
                Group { members: state.members.insert(member, now), ..state },
            )
        }),
{
    let state = coordinator.groups[(group, topic)];
    assert(!state.has_silent(coordinator.session_timeout, now));
}

/// A heartbeat renews the session: once one is accepted, its member was last heard of then. At
/// every later time up to the session timeout the member keeps its place and its partitions, and
/// its generation is served, unless another member has become silent meanwhile.
pub proof fn heartbeat_renews_session(
    coordinator: Coordinator,
    group: Seq<char>,
    topic: Seq<char>,
    member: Seq<char>,
    generation: u64,
    at: u128,
    partition: u32,
    later: u128,
)
    requires
        heartbeat_request(coordinator, group, topic, member, generation, at).1 is None,
    ensures
        ({
            let after = heartbeat_request(coordinator, group, topic, member, generation, at).0;
            let state = after.groups[(group, topic)];
            &&& after.has_group(group, topic)
            &&& after.session_timeout == coordinator.session_timeout
            &&& state.generation == generation
            &&& state.members.dom().contains(member)
            &&& state.members[member] == at
            &&& (later - at <= coordinator.session_timeout && forall|name: Seq<char>|
                name != member && #[trigger] state.members.dom().contains(name) ==> later
                    - state.members[name] <= coordinator.session_timeout) ==> {
                &&& heartbeat_request(after, group, topic, member, generation, later).1 is None
                &&& partition_request(
                    after,
                    group,
                    topic,
                    member,
                    generation,
                    partition,
                    later,
                ).1 is None <==> owns(state, member, partition)
                &&& partition_request(
                    after,
                    group,
                    topic,
                    member,
                    generation,
                    partition,
                    later,
                ).0.groups[(group, topic)] == state
            }
        }),
{
    let after = heartbeat_request(coordinator, group, topic, member, generation, at).0;
    let state = after.groups[(group, topic)];
    if later - at <= coordinator.session_timeout && forall|name: Seq<char>|
        name != member && #[trigger] state.members.dom().contains(name) ==> later
            - state.members[name] <= coordinator.session_timeout {
        assert(all_heard(state.members, after.session_timeout, later));
        members_are_answered_by_their_group(
            after,
            group,
            topic,
            member,
            generation,
            partition,
            later,
        );
        assert(partition_request(
            after,
            group,
            topic,
            member,
            generation,
            partition,
            later,
        ).0.groups[(group, topic)] == state);
    }
}

/// A member that was silent for longer than the timeout loses its place with the next request to
/// its group: the others keep theirs, all partitions are dealt out to them in a new generation, and
/// the request is stale unless it is of that generation.
pub proof fn silent_members_are_replaced(
    coordinator: Coordinator,
    group: Seq<char>,
    topic: Seq<char>,
    silent: Seq<char>,
    member: Seq<char>,
    generation: u64,
    partition: u32,
    now: u128,
)
    requires
        coordinator.has_group(group, topic),
        coordinator.groups[(group, topic)].members.dom().finite(),
        coordinator.groups[(group, topic)].generation < u64::MAX,
        coordinator.groups[(group, topic)].members.dom().contains(silent),
        now - coordinator.groups[(group, topic)].members[silent] > coordinator.session_timeout,
    ensures
        ({
            let before = coordinator.groups[(group, topic)];
            let asked = partition_request(
                coordinator,
                group,
                topic,
                member,
                generation,
                partition,
                now,
            );
            let beat = heartbeat_request(coordinator, group, topic, member, generation, now);
            let after = asked.0.groups[(group, topic)];
            &&& !after.members.dom().contains(silent)
            &&& forall|name: Seq<char>| #[trigger]
                after.members.dom().contains(name) <==> before.members.dom().contains(name) && now
                    - before.members[name] <= coordinator.session_timeout
            &&& forall|name: Seq<char>| #[trigger]
                after.members.dom().contains(name) ==> after.members[name] == before.members[name]
            &&& after.generation == before.generation + 1
            &&& after.committed_offsets == before.committed_offsets
            &&& dealt_out(after, coordinator.partition_count(topic))
            &&& generation != after.generation ==> asked.1 == Some(
                GroupError::StaleGeneration { expected: after.generation, actual: generation },
            ) && beat.1 == asked.1 && beat.0 == asked.0
        }),
{
    let before = coordinator.groups[(group, topic)];
    assert(before.has_silent(coordinator.session_timeout, now));
    let live = before.live(coordinator.session_timeout, now);
    assert(live.members.dom().subset_of(before.members.dom()));
    vstd::set_lib::lemma_set_subset_finite(before.members.dom(), live.members.dom());
    rebalance_deals_out(live, coordinator.partition_count(topic));
}

/// Who joins is a member: it was heard of now, it is told the generation and the partitions that
/// the group has for it, and the members that were heard of within the timeout stay. Where
/// nothing has changed by that, the generation goes on; otherwise the next one begins, with all
/// partitions dealt out. The group keeps its committed offsets, or has those of its files.
pub proof fn joining_makes_member(
    coordinator: Coordinator,
    group: Seq<char>,
    topic: Seq<char>,
    member: Seq<char>,
    files: Seq<Option<String>>,
    now: u128,
)
    requires
        join_request(coordinator, group, topic, member, files, now).1 is Ok,
        coordinator.has_group(group, topic) ==> coordinator.groups[(
            group,
            topic,
        )].members.dom().finite(),
    ensures
        ({
            let (joined, told) = join_request(coordinator, group, topic, member, files, now);
            let known = coordinator.has_group(group, topic);
            let before = coordinator.groups[(group, topic)];
            let after = joined.groups[(group, topic)];
            let stays = known && before.generation != 0 && before.members.dom().contains(member)
                && all_heard(before.members, coordinator.session_timeout, now);
            &&& joined.has_group(group, topic)
            &&& after.members.dom().contains(member) && after.members[member] == now
            &&& told->Ok_0.0 == after.generation
            &&& forall|wanted: u32|
                told->Ok_0.1.contains(wanted) <==> #[trigger] owns(after, member, wanted)
            &&& told->Ok_0.1.len() == owned(after, member)
            &&& forall|name: Seq<char>|
                name != member ==> (#[trigger] after.members.dom().contains(name) <==> known
                    && before.members.dom().contains(name) && now - before.members[name]
                    <= coordinator.session_timeout)
            &&& forall|name: Seq<char>|
                name != member && #[trigger] after.members.dom().contains(name)
                    ==> after.members[name] == before.members[name]
            &&& stays ==> after.generation == before.generation && after.assignments
                == before.assignments
            &&& !stays ==> after.generation == if known {
                before.generation + 1
            } else {
                1
            } && dealt_out(after, coordinator.partition_count(topic))
            &&& known ==> after.committed_offsets == before.committed_offsets
            &&& !known ==> Ok::<Map<u32, u64>, GroupError>(after.committed_offsets) == offsets_in(
                files,
            )
        }),
{
    let before = if coordinator.has_group(group, topic) {
        coordinator.groups[(group, topic)]
    } else {
        Group::unjoined(offsets_in(files)->Ok_0)
    };
    let timeout = coordinator.session_timeout;
    let live = before.live(timeout, now);
    let with_member = live.heard_of(member, now);
    assert(live.members.dom().subset_of(before.members.dom()));
    assert(before.members.dom().finite());
    vstd::set_lib::lemma_set_subset_finite(before.members.dom(), live.members.dom());
    assert(before.has_silent(timeout, now) <==> !all_heard(before.members, timeout, now));
    let after = before.joined(member, timeout, now, coordinator.partition_count(topic)).0;
    if after.generation != before.generation || before.generation == 0 {
        rebalance_deals_out(with_member, coordinator.partition_count(topic));
    }
    assert forall|wanted: u32| after.partitions_of(member).contains(wanted) <==> #[trigger] owns(
        after,
        member,
        wanted,
    ) by {};
}

/// A join fails only where an id cannot be one, an offset file is no offset, or no generation is
/// left.
pub proof fn joining_succeeds(
    coordinator: Coordinator,
    group: Seq<char>,
    topic: Seq<char>,
    member: Seq<char>,
    files: Seq<Option<String>>,
    now: u128,
)
    requires
        is_id(group),
        is_id(topic),
        is_id(member),
        coordinator.has_group(group, topic) ==> coordinator.groups[(group, topic)].generation
            < u64::MAX,
        !coordinator.has_group(group, topic) ==> offsets_in(files) is Ok,
    ensures
        join_request(coordinator, group, topic, member, files, now).1 is Ok,
{
}

/// Who leaves is no member: the others stay as they were, and all partitions are dealt out to them
/// in the next generation.
pub proof fn leaving_deals_out_partitions(
    coordinator: Coordinator,
    group: Seq<char>,
    topic: Seq<char>,
    member: Seq<char>,
    generation: u64,
    now: u128,
)
    requires
        coordinator.has_group(group, topic),
        coordinator.groups[(group, topic)].members.dom().finite(),
        all_heard(
            coordinator.groups[(group, topic)].members,
            coordinator.session_timeout,
            now,
        ),
    ensures
        ({
            let before = coordinator.groups[(group, topic)];
            let left = leave_request(coordinator, group, topic, member, generation, now);
            let after = left.0.groups[(group, topic)];
            &&& left.1 is None <==> generation == before.generation && generation < u64::MAX
                && before.members.dom().contains(member)
            &&& left.1 is None ==> {
                &&& after.members == before.members.remove(member)
                &&& after.generation == before.generation + 1
                &&& after.committed_offsets == before.committed_offsets
                &&& dealt_out(after, coordinator.partition_count(topic))
            }
        }),
{
    let before = coordinator.groups[(group, topic)];
    assert(!before.has_silent(coordinator.session_timeout, now));
    if before.generation < u64::MAX {
        rebalance_deals_out(before.without(member), coordinator.partition_count(topic));
    }
}

/// The partition count of a topic is the one that was set, or the default.
pub proof fn set_count_is_used(coordinator: Coordinator, topic: Seq<char>, count: u32)
    ensures
        (Coordinator {
            topic_partition_counts: coordinator.topic_partition_counts.insert(topic, count),
            ..coordinator
        }).partition_count(topic) == count,
        !coordinator.topic_partition_counts.dom().contains(topic) ==> coordinator.partition_count(
            topic,
        ) == coordinator.default_partition_count,
{
}

/// A request to one group leaves all other groups as they were, and what the coordinator was made
/// with.
pub proof fn requests_keep_other_groups(
    coordinator: Coordinator,
    group: Seq<char>,
    topic: Seq<char>,
    member: Seq<char>,
    generation: u64,
    partition: u32,
    offset: u64,
    files: Seq<Option<String>>,
    now: u128,
    other: (Seq<char>, Seq<char>),
)
    requires
        other != (group, topic),
    ensures
        ({
            let beat = heartbeat_request(coordinator, group, topic, member, generation, now).0;
            let left = leave_request(coordinator, group, topic, member, generation, now).0;
            let asked = partition_request(
                coordinator,
                group,
                topic,
                member,
                generation,
                partition,
                now,
            ).0;
            let joined = join_request(coordinator, group, topic, member, files, now).0;
            let committed = offset_committed(coordinator, group, topic, partition, offset);
            forall|after: Coordinator|
                #![trigger after.groups]
                after == beat || after == left || after == asked || after == joined || after
                    == committed ==> {
                    &&& after.groups.dom().contains(other) <==> coordinator.groups.dom().contains(
                        other,
                    )
                    &&& coordinator.groups.dom().contains(other) ==> after.groups[other]
                        == coordinator.groups[other]
                    &&& after.offsets_dir == coordinator.offsets_dir
                    &&& after.session_timeout == coordinator.session_timeout
                    &&& after.default_partition_count == coordinator.default_partition_count
                    &&& after.topic_partition_counts == coordinator.topic_partition_counts
                }
        }),
{
}

/// A commit sets the offset of its partition, whatever it was before, and nothing else of the
/// group. Partition by partition the last commit counts.
pub proof fn last_commit_counts(
    coordinator: Coordinator,
    group: Seq<char>,
    topic: Seq<char>,
    partition: u32,
    offset: u64,
    other: u32,
)
    requires
        coordinator.has_group(group, topic),
    ensures
        ({
            let before = coordinator.groups[(group, topic)];
            let after = offset_committed(
                coordinator,
                group,
                topic,
                partition,
                offset,
            ).groups[(group, topic)];
            &&& after.committed_offsets.dom().contains(partition)
            &&& after.committed_offsets[partition] == offset
            &&& other != partition ==> (after.committed_offsets.dom().contains(other)
                <==> before.committed_offsets.dom().contains(other))
            &&& other != partition && before.committed_offsets.dom().contains(other)
                ==> after.committed_offsets[other] == before.committed_offsets[other]
            &&& after.generation == before.generation
            &&& after.members == before.members
            &&& after.assignments == before.assignments
        }),
{
}

/// The offset files of a group are read partition by partition: each file that is there gives the
/// offset of its partition, and no other partition has one.
pub proof fn offset_files_are_read(files: Seq<Option<String>>, partition: u32)
    requires
        files.len() <= u32::MAX,
        offsets_in(files) is Ok,
    ensures
        offsets_in(files)->Ok_0.dom().contains(partition) <==> partition < files.len()
            && files[partition as int] is Some,
        partition < files.len() ==> (files[partition as int] matches Some(contents) ==> Some(
            offsets_in(files)->Ok_0[partition],
        ) == parsed_offset(contents@)),
    decreases files.len(),
{
    if files.len() > 0 {
        let fewer = files.drop_last();
        offset_files_are_read(fewer, partition);
        if partition < fewer.len() {
            assert(fewer[partition as int] == files[partition as int]);
        }
    }
}

/// A group, a topic or a member is named by one up to two hundred and forty-nine ASCII letters,
/// digits, dots, underscores and hyphens.
pub proof fn ids_are_plain(id: Seq<char>)
    ensures
        is_id(id) <==> 1 <= id.len() <= 249 && forall|i: int|
            0 <= i < id.len() ==> {
                let c = #[trigger] id[i];
                ('a' <= c && c <= 'z') || ('A' <= c && c <= 'Z') || ('0' <= c && c <= '9') || c
                    == '.' || c == '_' || c == '-'
            },
{
    if is_id(id) {
        assert forall|i: int| 0 <= i < id.len() implies {
            let c = #[trigger] id[i];
            ('a' <= c && c <= 'z') || ('A' <= c && c <= 'Z') || ('0' <= c && c <= '9') || c == '.'
                || c == '_' || c == '-'
        } by {
            assert(text::is_name_char(id[i]));
        }
    }
}

/// Expiry drops exactly the members that were silent for longer than the timeout, and deals their
/// partitions out in the next generation. A group without such members stays as it is.
pub proof fn expiry_drops_silent_members(
    coordinator: Coordinator,
    group: Seq<char>,
    topic: Seq<char>,
    now: u128,
)
    requires
        coordinator.has_group(group, topic),
        coordinator.groups[(group, topic)].members.dom().finite(),
        coordinator.groups[(group, topic)].generation < u64::MAX,
    ensures
        ({
            let before = coordinator.groups[(group, topic)];
            let (after, succeeded) = coordinator.refreshed(group, topic, now);
            let heard = all_heard(before.members, coordinator.session_timeout, now);
            &&& succeeded
            &&& heard ==> after == before
            &&& !heard ==> after.generation == before.generation + 1 && dealt_out(
                after,
                coordinator.partition_count(topic),
            )
            &&& after.committed_offsets == before.committed_offsets
            &&& forall|name: Seq<char>| #[trigger]
                after.members.dom().contains(name) <==> before.members.dom().contains(name) && now
                    - before.members[name] <= coordinator.session_timeout
            &&& forall|name: Seq<char>| #[trigger]
                after.members.dom().contains(name) ==> after.members[name] == before.members[name]
        }),
{
    let before = coordinator.groups[(group, topic)];
    let timeout = coordinator.session_timeout;
    if all_heard(before.members, timeout, now) {
        assert(!before.has_silent(timeout, now));
    } else {
        let silent = choose|name: Seq<char>| #[trigger]
            before.members.dom().contains(name) && now - before.members[name] > timeout;
        silent_members_are_replaced(coordinator, group, topic, silent, silent, 0, 0, now);
    }
}

/// Offsets that are read again replace those that are known of their partitions, and no others.
pub proof fn read_offsets_replace_known(group: Group, offsets: Map<u32, u64>, partition: u32)
    ensures
        ({
            let after = group.with_offsets(offsets);
            &&& offsets.dom().contains(partition) ==> after.committed_offsets.dom().contains(
                partition,
            ) && after.committed_offsets[partition] == offsets[partition]
            &&& !offsets.dom().contains(partition) ==> (after.committed_offsets.dom().contains(
                partition,
            ) <==> group.committed_offsets.dom().contains(partition))
            &&& !offsets.dom().contains(partition) && group.committed_offsets.dom().contains(
                partition,
            ) ==> after.committed_offsets[partition] == group.committed_offsets[partition]
            &&& after.generation == group.generation
            &&& after.members == group.members
            &&& after.assignments == group.assignments
        }),
{
}

} // verus!
