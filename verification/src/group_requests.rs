//! Requests to the group coordinator: which files they need, what they change, and what is
//! answered.

use vstd::prelude::*;

use crate::groups;
use crate::groups::{Coordinator, GroupCoordinator, GroupError, GroupIdentity, OffsetWrite};
use crate::messages::{BrokerRequest, BrokerResponse};
use crate::storage;
use crate::text;

verus! {

/// What has to be read before a request is executed.
#[derive(Debug)]
pub enum NeededFiles {
    Nothing,
    /// The offset files of a group for each partition of its topic.
    GroupOffsets { partitions: u32 },
    /// One offset file.
    CommittedOffset { path: String },
}

/// What was read for a request. A file that is not there is `None`.
#[derive(Debug)]
pub struct GroupFiles {
    pub offsets: Vec<Option<String>>,
    pub committed: Option<String>,
}

/// What a request leads to.
pub enum GroupOutcome {
    Respond(BrokerResponse),
    /// The file is written first; [`commit_written`] then answers.
    Persist(OffsetWrite),
}

/// Whether the coordinator executes a request.
pub open spec fn is_group_request(request: BrokerRequest) -> bool {
    match request {
        BrokerRequest::JoinGroup { .. } => true,
        BrokerRequest::Heartbeat { .. } => true,
        BrokerRequest::LeaveGroup { .. } => true,
        BrokerRequest::CommitOffset { .. } => true,
        BrokerRequest::FetchCommittedOffset { .. } => true,
        BrokerRequest::GroupFetch { .. } => true,
        _ => false,
    }
}

/// Whether `needed` is what has to be read before a request is executed.
pub open spec fn needs(
    coordinator: Coordinator,
    request: BrokerRequest,
    needed: Result<NeededFiles, GroupError>,
) -> bool {
    match request {
        BrokerRequest::JoinGroup { group, topic, member } => {
            if !groups::is_id(group@) || !groups::is_id(topic@) || !groups::is_id(member@) {
                needed matches Err(error) && error == GroupError::InvalidId
            } else if coordinator.has_group(group@, topic@) {
                needed matches Ok(NeededFiles::Nothing)
            } else {
                needed matches Ok(NeededFiles::GroupOffsets { partitions }) && partitions
                    == coordinator.partition_count(topic@)
            }
        },
        BrokerRequest::FetchCommittedOffset { group, topic, partition } => {
            if !groups::is_id(group@) || !groups::is_id(topic@) {
                needed matches Err(error) && error == GroupError::InvalidId
            } else {
                needed matches Ok(NeededFiles::CommittedOffset { path }) && path@
                    == groups::offset_file(
                    coordinator.offsets_dir,
                    group@,
                    topic@,
                    partition as nat,
                )
            }
        },
        _ => needed matches Ok(NeededFiles::Nothing),
    }
}

/// What has to be read before `request` is executed.
pub fn needed_files(coordinator: &GroupCoordinator, request: &BrokerRequest) -> (needed: Result<
    NeededFiles,
    GroupError,
>)
    requires
        coordinator.wf(),
    ensures
        needs(coordinator@, *request, needed),
{
    match request {
        BrokerRequest::JoinGroup { group, topic, member } => {
            match coordinator.prepare_join(group.as_str(), topic.as_str(), member.as_str()) {
                Ok(Some(partitions)) => Ok(NeededFiles::GroupOffsets { partitions }),
                Ok(None) => Ok(NeededFiles::Nothing),
                Err(error) => Err(error),
            }
        },
        BrokerRequest::FetchCommittedOffset { group, topic, partition } => {
            match groups::validate_id(group.as_str()) {
                Ok(()) => {},
                Err(error) => return Err(error),
            }
            match groups::validate_id(topic.as_str()) {
                Ok(()) => {},
                Err(error) => return Err(error),
            }
            let path = groups::offset_path(
                coordinator.offsets_dir(),
                group.as_str(),
                topic.as_str(),
                *partition,
            );
            Ok(NeededFiles::CommittedOffset { path })
        },
        _ => Ok(NeededFiles::Nothing),
    }
}

/// Whether `outcome` acknowledges a request that was not refused, or gives its refusal.
pub open spec fn acknowledges(
    refusal: Option<GroupError>,
    outcome: Result<GroupOutcome, GroupError>,
) -> bool {
    match refusal {
        None => outcome matches Ok(GroupOutcome::Respond(response)) && response is GroupAck,
        Some(error) => outcome matches Err(found) && found == error,
    }
}

/// What a request to the coordinator leads to.
pub open spec fn is_group_outcome(
    before: Coordinator,
    request: BrokerRequest,
    files: GroupFiles,
    now: u128,
    after: Coordinator,
    outcome: Result<GroupOutcome, GroupError>,
) -> bool {
    match request {
        BrokerRequest::JoinGroup { group, topic, member } => {
            let (joined, result) = groups::join_request(
                before,
                group@,
                topic@,
                member@,
                files.offsets@,
                now,
            );
            &&& after == joined
            &&& match result {
                Ok((generation, partitions)) => {
                    &&& outcome matches Ok(
                        GroupOutcome::Respond(BrokerResponse::JoinGroup(response)),
                    )
                    &&& response.generation_value() == generation
                    &&& response.partition_values() == partitions
                },
                Err(error) => outcome matches Err(found) && found == error,
            }
        },
        BrokerRequest::Heartbeat { group, topic, member, generation } => {
            let (heard, refusal) = groups::heartbeat_request(
                before,
                group@,
                topic@,
                member@,
                generation,
                now,
            );
            after == heard && acknowledges(refusal, outcome)
        },
        BrokerRequest::LeaveGroup { group, topic, member, generation } => {
            let (left, refusal) = groups::leave_request(
                before,
                group@,
                topic@,
                member@,
                generation,
                now,
            );
            after == left && acknowledges(refusal, outcome)
        },
        BrokerRequest::CommitOffset { group, topic, member, generation, partition, offset } => {
            let (checked, refusal) = groups::partition_request(
                before,
                group@,
                topic@,
                member@,
                generation,
                partition,
                now,
            );
            &&& after == checked
            &&& match refusal {
                None => {
                    &&& outcome matches Ok(GroupOutcome::Persist(write))
                    &&& write.directory@ == storage::path_below(
                        storage::path_below(before.offsets_dir, group@),
                        topic@,
                    )
                    &&& write.path@ == groups::offset_file(
                        before.offsets_dir,
                        group@,
                        topic@,
                        partition as nat,
                    )
                    &&& write.contents@ == groups::offset_line(offset)
                },
                Some(error) => outcome matches Err(found) && found == error,
            }
        },
        BrokerRequest::FetchCommittedOffset { group, topic, .. } => {
            &&& after == before
            &&& if !groups::is_id(group@) || !groups::is_id(topic@) {
                outcome matches Err(found) && found == GroupError::InvalidId
            } else {
                match files.committed {
                    None => outcome matches Ok(
                        GroupOutcome::Respond(BrokerResponse::CommittedOffset(None)),
                    ),
                    Some(contents) => match groups::parsed_offset(contents@) {
                        Some(value) => outcome matches Ok(
                            GroupOutcome::Respond(BrokerResponse::CommittedOffset(Some(found))),
                        ) && found == value,
                        None => outcome matches Err(found) && found
                            == GroupError::InvalidOffsetFile,
                    },
                }
            }
        },
        BrokerRequest::GroupFetch { group, topic, member, generation, partition, .. } => {
            let (checked, refusal) = groups::partition_request(
                before,
                group@,
                topic@,
                member@,
                generation,
                partition,
                now,
            );
            after == checked && acknowledges(refusal, outcome)
        },
        _ => after == before,
    }
}

fn acknowledged(done: Result<(), GroupError>) -> (outcome: Result<GroupOutcome, GroupError>)
    ensures
        match done {
            Ok(_) => acknowledges(None, outcome),
            Err(error) => acknowledges(Some(error), outcome),
        },
{
    match done {
        Ok(()) => Ok(GroupOutcome::Respond(BrokerResponse::GroupAck)),
        Err(error) => Err(error),
    }
}

/// Executes a request to the coordinator with the files that it needs. A fetch is only
/// authorized here; a commit is answered once its file is written.
pub fn execute_group_request(
    coordinator: &mut GroupCoordinator,
    request: &BrokerRequest,
    files: &GroupFiles,
    now: u128,
) -> (outcome: Result<GroupOutcome, GroupError>)
    requires
        old(coordinator).wf(),
        is_group_request(*request),
        files.offsets@.len() <= u32::MAX,
    ensures
        final(coordinator).wf(),
        is_group_outcome(
            old(coordinator)@,
            *request,
            *files,
            now,
            final(coordinator)@,
            outcome,
        ),
{
    match request {
        BrokerRequest::JoinGroup { group, topic, member } => {
            match coordinator.join(
                group.as_str(),
                topic.as_str(),
                member.as_str(),
                &files.offsets,
                now,
            ) {
                Ok(response) => Ok(GroupOutcome::Respond(BrokerResponse::JoinGroup(response))),
                Err(error) => Err(error),
            }
        },
        BrokerRequest::Heartbeat { group, topic, member, generation } => {
            acknowledged(
                coordinator.heartbeat(
                    group.as_str(),
                    topic.as_str(),
                    member.as_str(),
                    *generation,
                    now,
                ),
            )
        },
        BrokerRequest::LeaveGroup { group, topic, member, generation } => {
            acknowledged(
                coordinator.leave(
                    group.as_str(),
                    topic.as_str(),
                    member.as_str(),
                    *generation,
                    now,
                ),
            )
        },
        BrokerRequest::CommitOffset { group, topic, member, generation, partition, offset } => {
            let identity = GroupIdentity {
                group: group.as_str(),
                topic: topic.as_str(),
                member: member.as_str(),
                generation: *generation,
            };
            match coordinator.commit(&identity, *partition, *offset, now) {
                Ok(write) => Ok(GroupOutcome::Persist(write)),
                Err(error) => Err(error),
            }
        },
        BrokerRequest::FetchCommittedOffset { group, topic, .. } => {
            let contents: Option<&str> = match &files.committed {
                Some(contents) => Some(contents.as_str()),
                None => None,
            };
            match coordinator.committed_offset(group.as_str(), topic.as_str(), contents) {
                Ok(offset) => Ok(GroupOutcome::Respond(BrokerResponse::CommittedOffset(offset))),
                Err(error) => Err(error),
            }
        },
        BrokerRequest::GroupFetch { group, topic, member, generation, partition, .. } => {
            let identity = GroupIdentity {
                group: group.as_str(),
                topic: topic.as_str(),
                member: member.as_str(),
                generation: *generation,
            };
            acknowledged(coordinator.authorize_fetch(&identity, *partition, now))
        },
        _ => Err(GroupError::UnknownGroup),
    }
}

/// Answers a commit whose file was written: the coordinator now knows the offset.
pub fn commit_written(
    coordinator: &mut GroupCoordinator,
    group: &str,
    topic: &str,
    partition: u32,
    offset: u64,
) -> (response: Result<BrokerResponse, GroupError>)
    requires
        old(coordinator).wf(),
    ensures
        final(coordinator).wf(),
        if old(coordinator)@.has_group(group@, topic@) {
            &&& response matches Ok(answer) && answer is GroupAck
            &&& final(coordinator)@ == groups::offset_committed(
                old(coordinator)@,
                group@,
                topic@,
                partition,
                offset,
            )
        } else {
            &&& response matches Err(error) && error == GroupError::UnknownGroup
            &&& final(coordinator)@ == old(coordinator)@
        },
{
    match coordinator.committed(group, topic, partition, offset) {
        Ok(()) => Ok(BrokerResponse::GroupAck),
        Err(error) => Err(error),
    }
}

/// The answer to a request to the coordinator. An error is answered by its text.
pub fn group_response(result: Result<BrokerResponse, GroupError>) -> (response: BrokerResponse)
    ensures
        match result {
            Ok(answer) => response == answer,
            Err(error) => response.is_error(error.text()),
        },
{
    match result {
        Ok(answer) => answer,
        Err(error) => BrokerResponse::Error(error.message()),
    }
}

/// A committed offset is found again: what a commit writes is in the file that is read when the
/// offset is asked for, and the answer is the offset that was committed.
pub proof fn committed_offset_is_fetched(
    before: Coordinator,
    group: String,
    topic: String,
    member: String,
    generation: u64,
    partition: u32,
    offset: u64,
    commit_files: GroupFiles,
    committed_at: u128,
    after: Coordinator,
    write: OffsetWrite,
    later: Coordinator,
    needed: Result<NeededFiles, GroupError>,
    files: GroupFiles,
    asked_at: u128,
    end: Coordinator,
    outcome: Result<GroupOutcome, GroupError>,
)
    requires
        is_group_outcome(
            before,
            BrokerRequest::CommitOffset { group, topic, member, generation, partition, offset },
            commit_files,
            committed_at,
            after,
            Ok(GroupOutcome::Persist(write)),
        ),
        later.offsets_dir == before.offsets_dir,
        groups::is_id(group@),
        groups::is_id(topic@),
        needs(later, BrokerRequest::FetchCommittedOffset { group, topic, partition }, needed),
        files.committed is Some,
        files.committed->0@ == write.contents@,
        is_group_outcome(
            later,
            BrokerRequest::FetchCommittedOffset { group, topic, partition },
            files,
            asked_at,
            end,
            outcome,
        ),
    ensures
        needed matches Ok(NeededFiles::CommittedOffset { path }) && path@ == write.path@,
        outcome matches Ok(GroupOutcome::Respond(BrokerResponse::CommittedOffset(Some(found))))
            && found == offset,
        end == later,
{
    groups::committed_offset_is_read_back(offset);
}

/// A group that has committed nothing in a partition is told so.
pub proof fn nothing_committed_is_told(
    before: Coordinator,
    group: String,
    topic: String,
    partition: u32,
    files: GroupFiles,
    now: u128,
    after: Coordinator,
    outcome: Result<GroupOutcome, GroupError>,
)
    requires
        groups::is_id(group@),
        groups::is_id(topic@),
        files.committed is None,
        is_group_outcome(
            before,
            BrokerRequest::FetchCommittedOffset { group, topic, partition },
            files,
            now,
            after,
            outcome,
        ),
    ensures
        outcome matches Ok(GroupOutcome::Respond(BrokerResponse::CommittedOffset(None))),
        after == before,
{
}

/// An offset is committed only by the member that has the partition, in the generation of the
/// group, and only in that partition; nothing is written otherwise. As long as all members were
/// heard of, such a member always may commit.
pub proof fn only_owners_commit(
    before: Coordinator,
    group: String,
    topic: String,
    member: String,
    generation: u64,
    partition: u32,
    offset: u64,
    files: GroupFiles,
    now: u128,
    after: Coordinator,
    outcome: Result<GroupOutcome, GroupError>,
)
    requires
        is_group_outcome(
            before,
            BrokerRequest::CommitOffset { group, topic, member, generation, partition, offset },
            files,
            now,
            after,
            outcome,
        ),
        before.has_group(group@, topic@),
        groups::all_heard(
            before.groups[(group@, topic@)].members,
            before.session_timeout,
            now,
        ),
    ensures
        ({
            let state = before.groups[(group@, topic@)];
            let allowed = generation == state.generation && state.members.dom().contains(member@)
                && groups::owns(state, member@, partition);
            &&& outcome is Ok <==> allowed
            &&& allowed ==> (outcome matches Ok(GroupOutcome::Persist(write))
                && groups::parsed_offset(write.contents@) == Some(offset))
            &&& after.groups =~= before.groups
        }),
{
    groups::members_are_answered_by_their_group(
        before,
        group@,
        topic@,
        member@,
        generation,
        partition,
        now,
    );
    groups::committed_offset_is_read_back(offset);
}

/// Records are handed to the member that has their partition and to nobody else.
pub proof fn only_owners_fetch(
    before: Coordinator,
    group: String,
    topic: String,
    member: String,
    generation: u64,
    partition: u32,
    offset: u64,
    max_bytes: u32,
    max_wait_ms: u32,
    files: GroupFiles,
    now: u128,
    after: Coordinator,
    outcome: Result<GroupOutcome, GroupError>,
)
    requires
        is_group_outcome(
            before,
            BrokerRequest::GroupFetch {
                group,
                topic,
                member,
                generation,
                partition,
                offset,
                max_bytes,
                max_wait_ms,
            },
            files,
            now,
            after,
            outcome,
        ),
        before.has_group(group@, topic@),
        groups::all_heard(
            before.groups[(group@, topic@)].members,
            before.session_timeout,
            now,
        ),
    ensures
        ({
            let state = before.groups[(group@, topic@)];
            let allowed = generation == state.generation && state.members.dom().contains(member@)
                && groups::owns(state, member@, partition);
            &&& allowed ==> (outcome matches Ok(GroupOutcome::Respond(answer)) && answer
                is GroupAck)
            &&& !allowed ==> outcome is Err
            &&& after.groups =~= before.groups
        }),
{
    groups::members_are_answered_by_their_group(
        before,
        group@,
        topic@,
        member@,
        generation,
        partition,
        now,
    );
}

/// A heartbeat that is acknowledged was heard: the member's session goes on from then. A member
/// that has left is one no longer, and one that has joined is told what the group has for it.
pub proof fn answers_tell_of_membership(
    before: Coordinator,
    group: String,
    topic: String,
    member: String,
    generation: u64,
    files: GroupFiles,
    now: u128,
    after: Coordinator,
    outcome: Result<GroupOutcome, GroupError>,
)
    requires
        before.has_group(group@, topic@) ==> before.groups[(
            group@,
            topic@,
        )].members.dom().finite(),
    ensures
        is_group_outcome(
            before,
            BrokerRequest::Heartbeat { group, topic, member, generation },
            files,
            now,
            after,
            outcome,
        ) && outcome is Ok ==> {
            &&& outcome matches Ok(GroupOutcome::Respond(answer)) && answer is GroupAck
            &&& after.has_group(group@, topic@)
            &&& after.groups[(group@, topic@)].generation == generation
            &&& after.groups[(group@, topic@)].members.dom().contains(member@)
            &&& after.groups[(group@, topic@)].members[member@] == now
        },
        is_group_outcome(
            before,
            BrokerRequest::LeaveGroup { group, topic, member, generation },
            files,
            now,
            after,
            outcome,
        ) && outcome is Ok ==> {
            &&& outcome matches Ok(GroupOutcome::Respond(answer)) && answer is GroupAck
            &&& after.has_group(group@, topic@)
            &&& after.groups[(group@, topic@)].generation > generation
            &&& !after.groups[(group@, topic@)].members.dom().contains(member@)
        },
        is_group_outcome(
            before,
            BrokerRequest::JoinGroup { group, topic, member },
            files,
            now,
            after,
            outcome,
        ) && outcome is Ok ==> {
            &&& outcome matches Ok(GroupOutcome::Respond(BrokerResponse::JoinGroup(response)))
            &&& after.has_group(group@, topic@)
            &&& after.groups[(group@, topic@)].members.dom().contains(member@)
            &&& after.groups[(group@, topic@)].members[member@] == now
            &&& response.generation_value() == after.groups[(group@, topic@)].generation
            &&& forall|partition: u32|
                response.partition_values().contains(partition) <==> #[trigger] groups::owns(
                    after.groups[(group@, topic@)],
                    member@,
                    partition,
                )
        },
{
    if groups::heartbeat_request(before, group@, topic@, member@, generation, now).1 is None {
        groups::heartbeat_renews_session(
            before,
            group@,
            topic@,
            member@,
            generation,
            now,
            0,
            now,
        );
    }
    if groups::leave_request(before, group@, topic@, member@, generation, now).1 is None {
        groups::leaving_ends_generation(before, group@, topic@, member@, generation, now);
    }
    if groups::join_request(before, group@, topic@, member@, files.offsets@, now).1 is Ok {
        groups::joining_makes_member(before, group@, topic@, member@, files.offsets@, now);
    }
}

/// A group that is not known yet is joined with the offset files of all partitions of its topic,
/// and one that is known needs none.
pub proof fn new_groups_need_their_offsets(
    coordinator: Coordinator,
    group: String,
    topic: String,
    member: String,
    needed: Result<NeededFiles, GroupError>,
)
    requires
        groups::is_id(group@),
        groups::is_id(topic@),
        groups::is_id(member@),
        needs(coordinator, BrokerRequest::JoinGroup { group, topic, member }, needed),
    ensures
        coordinator.groups.dom().contains((group@, topic@)) ==> needed matches Ok(
            NeededFiles::Nothing,
        ),
        !coordinator.groups.dom().contains((group@, topic@)) ==> (needed matches Ok(
            NeededFiles::GroupOffsets { partitions },
        ) && partitions == coordinator.partition_count(topic@)),
{
}

/// A request with a name that no file could have is refused before anything is read, and an offset
/// is looked up in the file of its own partition.
pub proof fn files_are_read_for_plain_names(
    coordinator: Coordinator,
    group: String,
    topic: String,
    member: String,
    partition: u32,
    joining: Result<NeededFiles, GroupError>,
    fetching: Result<NeededFiles, GroupError>,
)
    requires
        needs(coordinator, BrokerRequest::JoinGroup { group, topic, member }, joining),
        needs(
            coordinator,
            BrokerRequest::FetchCommittedOffset { group, topic, partition },
            fetching,
        ),
    ensures
        joining is Err <==> !(groups::is_id(group@) && groups::is_id(topic@) && groups::is_id(
            member@,
        )),
        joining is Err ==> joining->Err_0 == GroupError::InvalidId,
        fetching is Err <==> !(groups::is_id(group@) && groups::is_id(topic@)),
        fetching is Err ==> fetching->Err_0 == GroupError::InvalidId,
        fetching is Ok ==> (fetching->Ok_0 matches NeededFiles::CommittedOffset { path } && path@
            == groups::offset_file(
            coordinator.offsets_dir,
            group@,
            topic@,
            partition as nat,
        )),
{
}

} // verus!
