//! How the storage adapter writes domain values into rows and reads them
//! back: axis names, event rows, snapshot timestamps and backup versions.

use vstd::prelude::*;
use crate::domain::{DomainError, DropProgress, PersonalAxis, WatchEvent, WorkId};

verus! {

/// The name of an axis in the database.
pub open spec fn axis_text(axis: PersonalAxis) -> Seq<char> {
    match axis {
        PersonalAxis::Story => "story"@,
        PersonalAxis::Characters => "characters"@,
        PersonalAxis::WorldBuilding => "world_building"@,
        PersonalAxis::VisualDirection => "visual_direction"@,
        PersonalAxis::SoundAndMusic => "sound_and_music"@,
    }
}

/// The name of an axis in the database.
pub fn axis_name(axis: PersonalAxis) -> (name: &'static str)
    ensures
        name@ == axis_text(axis),
{
    match axis {
        PersonalAxis::Story => "story",
        PersonalAxis::Characters => "characters",
        PersonalAxis::WorldBuilding => "world_building",
        PersonalAxis::VisualDirection => "visual_direction",
        PersonalAxis::SoundAndMusic => "sound_and_music",
    }
}

/// Reads an axis name; an unknown name is refused.
pub fn parse_axis(value: &str) -> (result: Result<PersonalAxis, DomainError>)
    ensures
        match result {
            Ok(axis) => axis_text(axis) == value@,
            Err(e) => (forall|axis: PersonalAxis| axis_text(axis) != value@)
                && e == DomainError::InvalidValue { field: "aspect.axis", reason: "unknown value" },
        },
{
    proof {
        reveal_strlit("story");
        reveal_strlit("characters");
        reveal_strlit("world_building");
        reveal_strlit("visual_direction");
        reveal_strlit("sound_and_music");
    }
    if crate::text::text_equals(value, "story") {
        Ok(PersonalAxis::Story)
    } else if crate::text::text_equals(value, "characters") {
        Ok(PersonalAxis::Characters)
    } else if crate::text::text_equals(value, "world_building") {
        Ok(PersonalAxis::WorldBuilding)
    } else if crate::text::text_equals(value, "visual_direction") {
        Ok(PersonalAxis::VisualDirection)
    } else if crate::text::text_equals(value, "sound_and_music") {
        Ok(PersonalAxis::SoundAndMusic)
    } else {
        proof {
            assert forall|axis: PersonalAxis| axis_text(axis) != value@ by {
                match axis {
                    PersonalAxis::Story => {},
                    PersonalAxis::Characters => {},
                    PersonalAxis::WorldBuilding => {},
                    PersonalAxis::VisualDirection => {},
                    PersonalAxis::SoundAndMusic => {},
                }
            }
        }
        Err(DomainError::InvalidValue { field: "aspect.axis", reason: "unknown value" })
    }
}

/// Writing an axis name and reading it back gives the same axis.
pub proof fn lemma_axis_round_trip(axis: PersonalAxis, other: PersonalAxis)
    ensures
        axis_text(axis) == axis_text(other) ==> axis == other,
{
    reveal_strlit("story");
    reveal_strlit("characters");
    reveal_strlit("world_building");
    reveal_strlit("visual_direction");
    reveal_strlit("sound_and_music");
    assert(axis_text(axis).len() == axis_text(other).len() ==> axis == other) by {
        assert(axis_text(PersonalAxis::Story).len() == 5);
        assert(axis_text(PersonalAxis::Characters).len() == 10);
        assert(axis_text(PersonalAxis::WorldBuilding).len() == 14);
        assert(axis_text(PersonalAxis::VisualDirection).len() == 16);
        assert(axis_text(PersonalAxis::SoundAndMusic).len() == 15);
    }
}

/// The kind of an event row.
pub open spec fn event_kind(event: WatchEvent) -> Seq<char> {
    match event {
        WatchEvent::Completed { .. } => "completed"@,
        WatchEvent::Rewatched { .. } => "rewatched"@,
        WatchEvent::Dropped { .. } => "dropped"@,
    }
}

/// The columns of an event row.
#[derive(Debug, Clone, Copy, PartialEq, Eq)]
pub struct EventRow {
    pub work_id: i64,
    pub kind: &'static str,
    pub position: Option<i64>,
    pub total: Option<i64>,
}

/// The row an event is written as: its work, its kind, and for a drop its
/// position and total.
pub open spec fn writes_event_row(event: WatchEvent, row: EventRow) -> bool {
    &&& row.work_id == event_work_value(event)
    &&& row.kind@ == event_kind(event)
    &&& match event {
        WatchEvent::Dropped { progress, .. } => row.position == Some(progress.spec_position() as i64)
            && row.total == Some(progress.spec_total() as i64),
        _ => row.position is None && row.total is None,
    }
}

/// The row an event is written as.
pub fn event_row(event: WatchEvent) -> (row: EventRow)
    ensures
        writes_event_row(event, row),
{
    proof {
        reveal_strlit("completed");
        reveal_strlit("rewatched");
        reveal_strlit("dropped");
    }
    let work_id = event.work_id().get() as i64;
    match event {
        WatchEvent::Completed { .. } => EventRow { work_id, kind: "completed", position: None, total: None },
        WatchEvent::Rewatched { .. } => EventRow { work_id, kind: "rewatched", position: None, total: None },
        WatchEvent::Dropped { progress, .. } => EventRow {
            work_id,
            kind: "dropped",
            position: Some(progress.position() as i64),
            total: Some(progress.total() as i64),
        },
    }
}

/// The raw identifier of an event's work.
pub open spec fn event_work_value(event: WatchEvent) -> int {
    crate::domain::event_work(event).spec_value() as int
}

/// A stored episode count as read back: a value that does not fit a `u32` reads as zero.
pub open spec fn stored_count(value: i64) -> int {
    if 0 <= value <= u32::MAX { value as int } else { 0 }
}

/// The refusal of a drop progress whose position is not below its total: the
/// total first, when it is zero, then the position.
pub open spec fn drop_progress_error(total: int) -> DomainError {
    if total == 0 {
        DomainError::InvalidValue { field: "drop_progress.total", reason: "must be greater than zero" }
    } else {
        DomainError::InvalidValue { field: "drop_progress.position", reason: "must be lower than total" }
    }
}

/// Whether one of the three kinds of the schema.
pub open spec fn known_event_kind(kind: Seq<char>) -> bool {
    kind == "completed"@ || kind == "rewatched"@ || kind == "dropped"@
}

/// What reading an event row gives: nothing for a kind the schema does not
/// allow; otherwise the identifier must fit a `u32` and be positive, and a
/// drop's position, read as [`stored_count`], must be below its total.
pub open spec fn reads_event_row(
    work_id: i64,
    kind: Seq<char>,
    position: i64,
    total: i64,
    result: Option<Result<WatchEvent, DomainError>>,
) -> bool {
    if !known_event_kind(kind) {
        result is None
    } else {
        result matches Some(r) && {
            if !(0 <= work_id <= u32::MAX) {
                r == Err::<WatchEvent, DomainError>(DomainError::InvalidValue { field: "work_id", reason: "must fit u32" })
            } else if work_id == 0 {
                r == Err::<WatchEvent, DomainError>(DomainError::InvalidValue { field: "work_id", reason: "must be greater than zero" })
            } else {
                match r {
                    Ok(e) => event_work_value(e) == work_id && event_kind(e) == kind
                        && (e matches WatchEvent::Dropped { progress, .. } ==>
                            progress.spec_position() == stored_count(position)
                            && progress.spec_total() == stored_count(total)),
                    Err(e) => kind == "dropped"@ && !(stored_count(position) < stored_count(total))
                        && e == drop_progress_error(stored_count(total)),
                }
            }
        }
    }
}

/// Reads an event row.
pub fn event_from_row(work_id: i64, kind: &str, position: i64, total: i64) -> (result: Option<Result<WatchEvent, DomainError>>)
    ensures
        reads_event_row(work_id, kind@, position, total, result),
{
    proof {
        reveal_strlit("completed");
        reveal_strlit("rewatched");
        reveal_strlit("dropped");
    }
    let completed = crate::text::text_equals(kind, "completed");
    let rewatched = crate::text::text_equals(kind, "rewatched");
    let dropped = crate::text::text_equals(kind, "dropped");
    if !completed && !rewatched && !dropped {
        return None;
    }
    if work_id < 0 || work_id > u32::MAX as i64 {
        return Some(Err(DomainError::InvalidValue { field: "work_id", reason: "must fit u32" }));
    }
    let id = match WorkId::new(work_id as u32) {
        Ok(id) => id,
        Err(e) => return Some(Err(e)),
    };
    if completed {
        Some(Ok(WatchEvent::completed(id)))
    } else if rewatched {
        Some(Ok(WatchEvent::rewatched(id)))
    } else {
        let position = if 0 <= position && position <= u32::MAX as i64 { position as u32 } else { 0 };
        let total = if 0 <= total && total <= u32::MAX as i64 { total as u32 } else { 0 };
        match DropProgress::new(position, total) {
            Ok(progress) => Some(Ok(WatchEvent::dropped(id, progress))),
            Err(e) => Some(Err(e)),
        }
    }
}

/// Whether an event holds what its type promises: a positive identifier
/// and, for a drop, a position below the total.
pub open spec fn event_valid(event: WatchEvent) -> bool {
    &&& event_work_value(event) > 0
    &&& (event matches WatchEvent::Dropped { progress, .. } ==> progress.spec_position() < progress.spec_total())
}

/// An event written as a row and read back is the same event.
pub proof fn lemma_event_row_round_trip(event: WatchEvent, row: EventRow, read: Option<Result<WatchEvent, DomainError>>)
    requires
        event_valid(event),
        writes_event_row(event, row),
        reads_event_row(
            row.work_id,
            row.kind@,
            match row.position { Some(p) => p, None => 0 },
            match row.total { Some(t) => t, None => 0 },
            read,
        ),
    ensures
        read == Some(Ok::<WatchEvent, DomainError>(event)),
{
    reveal_strlit("completed");
    reveal_strlit("rewatched");
    reveal_strlit("dropped");
    assert("completed"@ != "rewatched"@) by { assert("completed"@[0] != "rewatched"@[0]); }
    assert("completed"@ != "dropped"@) by { assert("completed"@.len() != "dropped"@.len()); }
    assert("rewatched"@ != "dropped"@) by { assert("rewatched"@.len() != "dropped"@.len()); }
    let r = read->0;
    let e = r->Ok_0;
    WorkId::lemma_value_injective(crate::domain::event_work(e), crate::domain::event_work(event));
    match event {
        WatchEvent::Dropped { progress, .. } => {
            match e {
                WatchEvent::Dropped { progress: p, .. } => {
                    DropProgress::lemma_progress_injective(p, progress);
                },
                _ => {},
            }
        },
        _ => {},
    }
}

/// The timestamp column of a snapshot; a time that does not fit an `i64` is refused.
pub fn snapshot_timestamp(created_at_unix: u64) -> (result: Result<i64, DomainError>)
    ensures
        created_at_unix <= i64::MAX ==> result == Ok::<i64, DomainError>(created_at_unix as i64),
        created_at_unix > i64::MAX ==> result == Err::<i64, DomainError>(
            DomainError::InvalidValue { field: "created_at_unix", reason: "must fit i64" },
        ),
{
    if created_at_unix > i64::MAX as u64 {
        return Err(DomainError::InvalidValue { field: "created_at_unix", reason: "must fit i64" });
    }
    Ok(created_at_unix as i64)
}

/// The version of the backups written.
pub const BACKUP_VERSION: u32 = 2;

/// Whether a backup of this version can be restored: versions 1 and 2.
pub fn backup_version_supported(version: u32) -> (supported: bool)
    ensures
        supported == (version == 1 || version == 2),
{
    version == 1 || version == 2
}

} // verus!
