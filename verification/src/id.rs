//! Region ids, entry ids and the object sequence an entry id carries.
use vstd::prelude::*;

verus! {

/// The id of an entry. Ids of one region strictly increase.
pub type EntryId = u64;

/// Number of positions an object reserves for the entries of one region. Positions start at
/// one, so an object holds at most `POSITION_LIMIT - 1` entries of a region.
pub const POSITION_LIMIT: u64 = 1_048_576;

/// The sequences an entry id can carry are those below this limit.
pub const OBJECT_SEQ_LIMIT: u64 = 17_592_186_044_416;

/// Number of regions one table id spans.
pub const REGION_NUMBERS: u64 = 4_294_967_296;

/// Identifies a region: the id of its table in the high half, its number in the low half.
#[derive(Clone, Copy, Debug, PartialEq, Eq, PartialOrd, Ord, Hash, Structural)]
pub struct RegionId(pub u64);

impl RegionId {
    /// The region `number` of the table `table_id`.
    pub fn new(table_id: u32, number: u32) -> (id: RegionId)
        ensures
            id.0 == table_id * REGION_NUMBERS + number,
    {
        RegionId(table_id as u64 * REGION_NUMBERS + number as u64)
    }

    /// The id as one integer.
    pub fn as_u64(&self) -> (id: u64)
        ensures
            id == self.0,
    {
        self.0
    }

    /// The id of the table the region belongs to.
    pub fn table_id(&self) -> (table_id: u32)
        ensures
            table_id == self.0 as int / REGION_NUMBERS as int,
    {
        (self.0 / REGION_NUMBERS) as u32
    }

    /// The number of the region within its table.
    pub fn region_number(&self) -> (number: u32)
        ensures
            number == self.0 as int % REGION_NUMBERS as int,
    {
        (self.0 % REGION_NUMBERS) as u32
    }
}

/// The id of the entry at `position` among the entries of its region in the object `object_seq`.
pub open spec fn id_at(object_seq: int, position: int) -> int {
    object_seq * POSITION_LIMIT + position
}

/// The object an entry id names.
pub open spec fn object_of(entry_id: int) -> int {
    entry_id / POSITION_LIMIT as int
}

/// The smallest sequence whose ids are all greater than `entry_id`.
pub open spec fn floor_of(entry_id: int) -> int {
    (entry_id + POSITION_LIMIT - 1) / POSITION_LIMIT as int
}

/// Returns the id of the entry at `position` of the object `object_seq`.
pub fn entry_id(object_seq: u64, position: u64) -> (id: EntryId)
    requires
        object_seq < OBJECT_SEQ_LIMIT,
        position < POSITION_LIMIT,
    ensures
        id == id_at(object_seq as int, position as int),
{
    object_seq * POSITION_LIMIT + position
}

/// Returns the smallest sequence whose ids are greater than `entry_id`.
///
/// Positions start at one, so every sequence has ids above zero, and the floor of an id past the
/// last sequence is [`OBJECT_SEQ_LIMIT`], which no entry id can carry.
pub fn sequence_floor(entry_id: EntryId) -> (floor: u64)
    ensures
        floor == floor_of(entry_id as int),
        floor <= OBJECT_SEQ_LIMIT,
{
    let whole: u64 = entry_id / POSITION_LIMIT;
    if entry_id % POSITION_LIMIT == 0 {
        whole
    } else {
        whole + 1
    }
}

/// `floor_of` is the least sequence all of whose ids are greater than the given one.
pub proof fn lemma_floor_is_least(entry_id: int)
    requires
        0 <= entry_id,
    ensures
        0 <= floor_of(entry_id),
        forall|position: int| 1 <= position ==> entry_id < #[trigger] id_at(
            floor_of(entry_id),
            position,
        ),
        forall|seq: int|
            0 <= seq < floor_of(entry_id) ==> #[trigger] id_at(seq, 1) <= entry_id,
{
}

/// A larger id never has a smaller floor.
pub proof fn lemma_floor_is_monotone(lower: int, upper: int)
    requires
        0 <= lower <= upper,
    ensures
        floor_of(lower) <= floor_of(upper),
{
}

/// An entry id names the object that holds the entry, and ids are ordered by object sequence
/// first and by position within an object second.
pub proof fn lemma_ids_are_sequence_major(seq_a: int, pos_a: int, seq_b: int, pos_b: int)
    requires
        0 <= seq_a,
        0 <= seq_b,
        0 <= pos_a < POSITION_LIMIT,
        0 <= pos_b < POSITION_LIMIT,
    ensures
        object_of(id_at(seq_a, pos_a)) == seq_a,
        seq_a < seq_b ==> id_at(seq_a, pos_a) < id_at(seq_b, pos_b),
        seq_a == seq_b ==> (pos_a < pos_b <==> id_at(seq_a, pos_a) < id_at(seq_b, pos_b)),
        id_at(seq_a, pos_a) == id_at(seq_b, pos_b) <==> seq_a == seq_b && pos_a == pos_b,
{
}

} // verus!
