//! Rebuilding the catalog from the objects under a prefix.
//!
//! Only the header, trailer and footer of every object are read and verified, so recovery costs a
//! few small reads per object however large the objects are. Segments are not read; a segment
//! checksum is verified by the read that decodes it.
use std::collections::HashMap;

use vstd::prelude::*;
use vstd::slice::slice_subrange;
use vstd::std_specs::hash::*;

use crate::actor::{opened, ActorSettings};
use crate::actor_laws::{durable, lemma_opened_is_valid};
use crate::catalog::{
    conflict_from, conflict_of, entry_of, has_region, increasing_by_region,
    lemma_by_region_of_increasing, lemma_entry_of, lemma_floor_of_ids, lemma_insert_keeps_valid,
    lemma_no_duplicate_in_increasing, lemma_no_invalid_range, raised_ids, CatalogModel,
    ObjectCatalog,
};
use crate::error::{Corruption, Error};
use crate::format::{
    decode_footer, decode_header, decode_trailer, footer_in, footer_of, footer_range,
    footer_range_of, grouped, header_in, lemma_object_round_trip, object_bytes, tiling_fault,
    trailer_in, unencodable, verify_segment_ranges, FixedTrailer, FooterEntry, FooterRange, Header,
    RecordModel, HEADER_LEN, MIN_OBJECT_LEN, TRAILER_LEN,
};
use crate::id::{EntryId, OBJECT_SEQ_LIMIT};
use crate::ordmap::{
    is_largest_below, is_smallest_above, largest_below, lemma_lists_keys, lists_keys, ordered_keys,
    smallest_above,
};

verus! {

broadcast use group_hash_axioms;

/// Number of objects whose footers recovery fetches at a time.
pub const RECOVERY_CONCURRENCY: usize = 8;

/// Bytes recovery reads from the end of an object in one request. The window holds the trailer and
/// the footer of an object with up to 1364 regions, so a second request for the footer is rare.
pub const RECOVERY_TAIL_WINDOW: usize = 65_536;

/// An object that a listing announces.
#[derive(Clone, Copy, Debug, PartialEq, Eq, Structural)]
pub struct ListedObject {
    pub object_seq: u64,
    /// The number of bytes that the listing announces.
    pub size: u64,
}

/// What to fetch of an object first.
#[derive(Clone, Copy, Debug, PartialEq, Eq, Structural)]
pub enum FetchPlan {
    /// The object is short and is fetched whole.
    Whole { object_len: usize },
    /// The header and the last `window` bytes are fetched.
    Parts { object_len: usize, window: usize },
}

/// What comes of the first bytes of an object.
#[derive(Debug)]
pub enum FooterStep {
    /// The footer was among them.
    Footer(Vec<FooterEntry>),
    /// The footer has to be fetched as well.
    Fetch { trailer: FixedTrailer, range: FooterRange },
}

/// How to fetch the footer of an object, or why it cannot be one.
pub open spec fn plan_of(object: ListedObject) -> Result<FetchPlan, Error> {
    if object.size > usize::MAX || object.size < MIN_OBJECT_LEN {
        Err(
            Error::InvalidWalObject {
                object_seq: object.object_seq,
                reason: Corruption::TruncatedObject {
                    expected: MIN_OBJECT_LEN as u64,
                    actual: object.size,
                },
            },
        )
    } else if object.size <= RECOVERY_TAIL_WINDOW {
        Ok(FetchPlan::Whole { object_len: object.size as usize })
    } else {
        Ok(FetchPlan::Parts { object_len: object.size as usize, window: RECOVERY_TAIL_WINDOW })
    }
}

impl FetchPlan {
    /// The number of bytes of the object.
    pub open spec fn object_len(self) -> usize {
        match self {
            FetchPlan::Whole { object_len } => object_len,
            FetchPlan::Parts { object_len, .. } => object_len,
        }
    }

    /// The number of bytes fetched from its end.
    pub open spec fn window(self) -> usize {
        match self {
            FetchPlan::Whole { object_len } => object_len,
            FetchPlan::Parts { window, .. } => window,
        }
    }

    /// Where those bytes start.
    pub open spec fn tail_start(self) -> int {
        self.object_len() - self.window()
    }

    /// The plan fits an object: it fetches at least the trailer and no more than there is.
    pub open spec fn fits(self) -> bool {
        TRAILER_LEN <= self.window() <= self.object_len()
    }
}

/// The trailer of the object `object_seq` and where its footer lies, as the first bytes `head` and
/// the last bytes `tail` of the object say.
pub open spec fn located(object_seq: u64, object_len: int, head: Seq<u8>, tail: Seq<u8>) -> Result<
    (FixedTrailer, FooterRange),
    Corruption,
> {
    match header_in(head) {
        Err(reason) => Err(reason),
        Ok(header) => if header.object_seq != object_seq {
            Err(Corruption::HeaderSequence { header_seq: header.object_seq, object_seq })
        } else {
            match trailer_in(tail.subrange(tail.len() - TRAILER_LEN, tail.len() as int)) {
                Err(reason) => Err(reason),
                Ok(trailer) => match footer_range_of(trailer, object_len) {
                    Err(reason) => Err(reason),
                    Ok(range) => Ok((trailer, range)),
                },
            }
        },
    }
}

/// The footer that its bytes give, once its segments are seen to tile the object.
pub open spec fn checked_footer(
    bytes: Seq<u8>,
    trailer: FixedTrailer,
    footer_start: int,
) -> Result<Seq<FooterEntry>, Corruption> {
    match footer_in(bytes, trailer) {
        Err(reason) => Err(reason),
        Ok(footer) => match tiling_fault(footer, 0, HEADER_LEN as u64, footer_start) {
            Some(reason) => Err(reason),
            None => Ok(footer),
        },
    }
}

/// The footer of the object `object_seq` whose bytes are `bytes`.
pub open spec fn object_footer(object_seq: u64, bytes: Seq<u8>) -> Result<
    Seq<FooterEntry>,
    Corruption,
> {
    match located(object_seq, bytes.len() as int, bytes, bytes) {
        Err(reason) => Err(reason),
        Ok((trailer, range)) => checked_footer(
            bytes.subrange(range.start as int, range.end as int),
            trailer,
            range.start as int,
        ),
    }
}

/// Decides what to fetch of an object: a short object is read whole, otherwise the header and a
/// window at the end of the object are read.
pub fn plan_fetch(object: &ListedObject) -> (plan: Result<FetchPlan, Error>)
    ensures
        plan == plan_of(*object),
        plan matches Ok(plan) ==> plan.fits() && plan.object_len() == object.size
            && plan.object_len() >= MIN_OBJECT_LEN && (plan is Parts ==> plan.tail_start() > 0),
{
    if object.size > usize::MAX as u64 || object.size < MIN_OBJECT_LEN as u64 {
        return Err(
            Error::InvalidWalObject {
                object_seq: object.object_seq,
                reason: Corruption::TruncatedObject {
                    expected: MIN_OBJECT_LEN as u64,
                    actual: object.size,
                },
            },
        );
    }
    let object_len: usize = object.size as usize;
    if object_len <= RECOVERY_TAIL_WINDOW {
        Ok(FetchPlan::Whole { object_len })
    } else {
        Ok(FetchPlan::Parts { object_len, window: RECOVERY_TAIL_WINDOW })
    }
}

/// Verifies the header and trailer of the object `object_seq` of `object_len` bytes from its first
/// bytes `head` and its last bytes `tail`, and returns the trailer with the range the footer
/// occupies in the object.
pub fn locate_footer(object_seq: u64, object_len: usize, head: &[u8], tail: &[u8]) -> (result:
    Result<(FixedTrailer, FooterRange), Corruption>)
    requires
        tail@.len() >= TRAILER_LEN,
    ensures
        result == located(object_seq, object_len as int, head@, tail@),
        result matches Ok((_, range)) ==> HEADER_LEN <= range.start <= range.end && range.end
            + TRAILER_LEN == object_len,
{
    let header = match decode_header(head) {
        Ok(header) => header,
        Err(reason) => {
            return Err(reason);
        },
    };
    if header.object_seq != object_seq {
        return Err(Corruption::HeaderSequence { header_seq: header.object_seq, object_seq });
    }
    let n: usize = tail.len();
    let trailer = match decode_trailer(slice_subrange(tail, n - TRAILER_LEN, n)) {
        Ok(trailer) => trailer,
        Err(reason) => {
            return Err(reason);
        },
    };
    match footer_range(trailer, object_len) {
        Ok(range) => Ok((trailer, range)),
        Err(reason) => Err(reason),
    }
}

/// What the first bytes of an object lead to.
pub open spec fn first_step(
    object: ListedObject,
    plan: FetchPlan,
    head: Seq<u8>,
    tail: Seq<u8>,
) -> Result<(FixedTrailer, FooterRange), Corruption> {
    if head.len() < HEADER_LEN || tail.len() != plan.window() {
        Err(
            Corruption::ShortObject {
                size: object.size,
                head: head.len() as u64,
                tail: tail.len() as u64,
            },
        )
    } else {
        located(object.object_seq, plan.object_len() as int, head, tail)
    }
}

/// Takes the first bytes of an object: locates its footer, and decodes it where it lies in the
/// window.
pub fn begin_footer(object: &ListedObject, plan: FetchPlan, head: &[u8], tail: &[u8]) -> (result:
    Result<FooterStep, Error>)
    requires
        plan.fits(),
    ensures
        match first_step(*object, plan, head@, tail@) {
            Err(reason) => result matches Err(error) && error == (Error::InvalidWalObject {
                object_seq: object.object_seq,
                reason,
            }),
            Ok((trailer, range)) => if range.start >= plan.tail_start() {
                match checked_footer(
                    tail@.subrange(
                        range.start - plan.tail_start(),
                        range.end - plan.tail_start(),
                    ),
                    trailer,
                    range.start as int,
                ) {
                    Ok(footer) => result matches Ok(FooterStep::Footer(entries)) && entries@
                        == footer,
                    Err(reason) => result matches Err(error) && error == (Error::InvalidWalObject {
                        object_seq: object.object_seq,
                        reason,
                    }),
                }
            } else {
                result matches Ok(FooterStep::Fetch { trailer: found, range: at }) && found
                    == trailer && at == range
            },
        },
{
    let object_seq: u64 = object.object_seq;
    let (object_len, window): (usize, usize) = match plan {
        FetchPlan::Whole { object_len } => (object_len, object_len),
        FetchPlan::Parts { object_len, window } => (object_len, window),
    };
    if head.len() < HEADER_LEN || tail.len() != window {
        let reason = Corruption::ShortObject {
            size: object.size,
            head: head.len() as u64,
            tail: tail.len() as u64,
        };
        return Err(Error::InvalidWalObject { object_seq, reason });
    }
    let (trailer, range) = match locate_footer(object_seq, object_len, head, tail) {
        Ok(found) => found,
        Err(reason) => {
            return Err(Error::InvalidWalObject { object_seq, reason });
        },
    };
    let tail_start: usize = object_len - window;
    if range.start >= tail_start {
        let bytes = slice_subrange(tail, range.start - tail_start, range.end - tail_start);
        match finish_footer(object, trailer, range, bytes) {
            Ok(footer) => Ok(FooterStep::Footer(footer)),
            Err(error) => Err(error),
        }
    } else {
        Ok(FooterStep::Fetch { trailer, range })
    }
}

/// Takes the bytes of a footer: the footer must match the checksum the trailer holds and its
/// segments must tile the object body.
pub fn finish_footer(
    object: &ListedObject,
    trailer: FixedTrailer,
    range: FooterRange,
    bytes: &[u8],
) -> (result: Result<Vec<FooterEntry>, Error>)
    ensures
        match checked_footer(bytes@, trailer, range.start as int) {
            Ok(footer) => result matches Ok(entries) && entries@ == footer,
            Err(reason) => result matches Err(error) && error == (Error::InvalidWalObject {
                object_seq: object.object_seq,
                reason,
            }),
        },
{
    let object_seq: u64 = object.object_seq;
    let footer = match decode_footer(bytes, trailer) {
        Ok(footer) => footer,
        Err(reason) => {
            return Err(Error::InvalidWalObject { object_seq, reason });
        },
    };
    match verify_segment_ranges(&footer, range.start) {
        Ok(()) => Ok(footer),
        Err(reason) => Err(Error::InvalidWalObject { object_seq, reason }),
    }
}

/// Reading the parts of an object gives the same footer as reading it whole: with the header, the
/// last bytes and, where it starts before them, the footer of an object at hand, the footer that is
/// found and every reason to reject the object are those of the whole object.
pub proof fn lemma_parts_match_whole(
    object: ListedObject,
    plan: FetchPlan,
    bytes: Seq<u8>,
    head: Seq<u8>,
    tail: Seq<u8>,
)
    requires
        plan_of(object) == Ok::<FetchPlan, Error>(plan),
        bytes.len() == object.size,
        head.len() >= HEADER_LEN,
        head.len() <= bytes.len(),
        head == bytes.take(head.len() as int),
        tail == bytes.skip(plan.tail_start()),
    ensures
        match first_step(object, plan, head, tail) {
            Err(reason) => object_footer(object.object_seq, bytes) == Err::<
                Seq<FooterEntry>,
                Corruption,
            >(reason),
            Ok((trailer, range)) => {
                &&& object_footer(object.object_seq, bytes) == checked_footer(
                    bytes.subrange(range.start as int, range.end as int),
                    trailer,
                    range.start as int,
                )
                &&& range.start >= plan.tail_start() ==> tail.subrange(
                    range.start - plan.tail_start(),
                    range.end - plan.tail_start(),
                ) == bytes.subrange(range.start as int, range.end as int)
            },
        },
{
    assert(header_in(head) == header_in(bytes)) by {
        assert(head.subrange(0, 8) =~= bytes.subrange(0, 8));
        assert(head.subrange(8, 10) =~= bytes.subrange(8, 10));
        assert(head.subrange(10, 18) =~= bytes.subrange(10, 18));
        assert(head.subrange(18, 26) =~= bytes.subrange(18, 26));
        assert(head.subrange(26, 34) =~= bytes.subrange(26, 34));
    }
    assert(tail.subrange(tail.len() - TRAILER_LEN, tail.len() as int) =~= bytes.subrange(
        bytes.len() - TRAILER_LEN,
        bytes.len() as int,
    ));
    if let Ok((trailer, range)) = first_step(object, plan, head, tail) {
        if range.start >= plan.tail_start() {
            assert(tail.subrange(
                range.start - plan.tail_start(),
                range.end - plan.tail_start(),
            ) =~= bytes.subrange(range.start as int, range.end as int));
        }
    }
}

/// Segments that tile the bytes up to the footer end before it.
proof fn lemma_tiles_end(footer: Seq<FooterEntry>, i: int, expected: u64, footer_start: int)
    requires
        0 <= i,
        tiling_fault(footer, i, expected, footer_start) is None,
    ensures
        forall|k: int|
            i <= k < footer.len() ==> (#[trigger] footer[k]).segment_offset
                + footer[k].segment_len <= footer_start && footer[k].segment_offset
                + footer[k].segment_len <= u64::MAX,
    decreases footer.len() - i,
{
    if i < footer.len() {
        lemma_tiles_end(
            footer,
            i + 1,
            (footer[i].segment_offset + footer[i].segment_len) as u64,
            footer_start,
        );
    }
}

/// Every segment of a footer that was found has an end that can be counted, at or before the
/// footer.
pub proof fn lemma_found_segments_fit(bytes: Seq<u8>, trailer: FixedTrailer, footer_start: int)
    ensures
        checked_footer(bytes, trailer, footer_start) matches Ok(footer) ==> forall|k: int|
            0 <= k < footer.len() ==> (#[trigger] footer[k]).segment_offset
                + footer[k].segment_len <= footer_start && footer[k].segment_offset
                + footer[k].segment_len <= u64::MAX,
{
    if let Ok(footer) = checked_footer(bytes, trailer, footer_start) {
        lemma_tiles_end(footer, 0, HEADER_LEN as u64, footer_start);
    }
}

/// What recovery finds is what was written: the footer of an object whose bytes are those of
/// encoded records is the footer it was written with.
pub proof fn lemma_written_footer_is_found(header: Header, records: Seq<RecordModel>)
    requires
        unencodable(records) is None,
        object_bytes(header, grouped(records)).len() <= usize::MAX,
    ensures
        object_footer(header.object_seq, object_bytes(header, grouped(records))) == Ok::<
            Seq<FooterEntry>,
            Corruption,
        >(footer_of(grouped(records))),
{
    lemma_object_round_trip(header, records);
}

/// The footer that was found of an object.
#[derive(Debug)]
pub struct FoundFooter {
    pub object_seq: u64,
    pub footer: Vec<FooterEntry>,
}

impl View for FoundFooter {
    type V = (u64, Seq<FooterEntry>);

    open spec fn view(&self) -> (u64, Seq<FooterEntry>) {
        (self.object_seq, self.footer@)
    }
}

/// What was found of each object.
pub open spec fn found_models(found: Seq<FoundFooter>) -> Seq<(u64, Seq<FooterEntry>)> {
    found.map_values(|f: FoundFooter| f@)
}

/// `sorted` with `item` behind the last item whose sequence is not larger.
pub open spec fn insert_by_seq(
    sorted: Seq<(u64, Seq<FooterEntry>)>,
    item: (u64, Seq<FooterEntry>),
) -> Seq<(u64, Seq<FooterEntry>)>
    decreases sorted.len(),
{
    if sorted.len() == 0 || sorted.last().0 <= item.0 {
        sorted.push(item)
    } else {
        insert_by_seq(sorted.drop_last(), item).push(sorted.last())
    }
}

/// The items in the order of their sequences.
pub open spec fn by_seq(found: Seq<(u64, Seq<FooterEntry>)>) -> Seq<(u64, Seq<FooterEntry>)>
    decreases found.len(),
{
    if found.len() == 0 {
        found
    } else {
        insert_by_seq(by_seq(found.drop_last()), found.last())
    }
}

/// Orders what was found by sequence, whatever the order the fetches completed in.
fn sort_by_seq(found: Vec<FoundFooter>) -> (sorted: Vec<FoundFooter>)
    ensures
        found_models(sorted@) == by_seq(found_models(found@)),
{
    let ghost all = found_models(found@);
    let ghost given = found@;
    let mut sorted: Vec<FoundFooter> = Vec::new();
    proof {
        assert(all.take(0) =~= Seq::empty());
        assert(found_models(sorted@) =~= Seq::empty());
    }
    for item in it: found
        invariant
            it.seq() == given,
            all == found_models(given),
            found_models(sorted@) == by_seq(all.take(it.index() as int)),
    {
        let ghost i = it.index() as int;
        let ghost before = found_models(sorted@);
        let ghost old_sorted = sorted@;
        let ghost model = item@;
        let mut at: usize = sorted.len();
        proof {
            assert(all[i] == model);
            assert(before.take(at as int) =~= before);
            assert(insert_by_seq(before, model) =~= insert_by_seq(before.take(at as int), model)
                + before.skip(at as int));
        }
        while at > 0 && sorted[at - 1].object_seq > item.object_seq
            invariant
                sorted@ == old_sorted,
                before == found_models(old_sorted),
                model == item@,
                at <= before.len(),
                insert_by_seq(before, model) == insert_by_seq(before.take(at as int), model)
                    + before.skip(at as int),
            decreases at,
        {
            proof {
                let left = before.take(at as int);
                assert(left.drop_last() =~= before.take(at - 1));
                assert(left.last() == before[at - 1]);
                assert(before[at - 1] == old_sorted[at - 1]@);
                assert(insert_by_seq(left, model) + before.skip(at as int) =~= insert_by_seq(
                    before.take(at - 1),
                    model,
                ) + before.skip(at - 1));
            }
            at = at - 1;
        }
        proof {
            let left = before.take(at as int);
            if at > 0 {
                assert(left.last() == before[at - 1]);
                assert(before[at - 1] == old_sorted[at - 1]@);
            }
            assert(insert_by_seq(left, model) == left.push(model));
            assert(all.take(i + 1).drop_last() =~= all.take(i));
        }
        sorted.insert(at, item);
        assert(found_models(sorted@) =~= before.take(at as int).push(model) + before.skip(
            at as int,
        ));
    }
    assert(all.take(all.len() as int) =~= all);
    sorted
}

/// The catalog of the first `n` of the objects, indexed in that order, or why one of them cannot
/// be indexed.
pub open spec fn indexed(found: Seq<(u64, Seq<FooterEntry>)>, n: int) -> Result<CatalogModel, Error>
    decreases n,
{
    if n <= 0 {
        Ok(CatalogModel::empty())
    } else {
        match indexed(found, n - 1) {
            Err(error) => Err(error),
            Ok(catalog) => {
                let (object_seq, footer) = found[n - 1];
                match catalog.rejection(object_seq, footer) {
                    Some(reason) => Err(Error::InvalidWalObject { object_seq, reason }),
                    None => Ok(catalog.inserted(object_seq, footer)),
                }
            },
        }
    }
}

proof fn lemma_first_failure(found: Seq<(u64, Seq<FooterEntry>)>, n: int, m: int)
    requires
        0 <= n <= m <= found.len(),
        indexed(found, n) is Err,
    ensures
        indexed(found, m) == indexed(found, n),
    decreases m - n,
{
    if n < m {
        lemma_first_failure(found, n, m - 1);
    }
}

/// Indexes the footers of the objects in sequence order, so the catalog checks the entry ranges of
/// every object against its predecessors. The first object that cannot be indexed fails it.
pub fn build_catalog(found: Vec<FoundFooter>) -> (result: Result<ObjectCatalog, Error>)
    ensures
        match indexed(by_seq(found_models(found@)), found@.len() as int) {
            Ok(catalog) => result matches Ok(built) && built.wf() && built@ == catalog,
            Err(error) => result matches Err(failed) && failed == error,
        },
{
    let sorted = sort_by_seq(found);
    let ghost given = sorted@;
    let ghost all = found_models(given);
    proof {
        lemma_by_seq_len(found_models(found@));
    }
    let mut catalog = ObjectCatalog::new();
    for item in it: sorted
        invariant
            it.seq() == given,
            all == found_models(given),
            all == by_seq(found_models(found@)),
            all.len() == found@.len(),
            catalog.wf(),
            indexed(all, it.index() as int) == Ok::<CatalogModel, Error>(catalog@),
    {
        let ghost i = it.index() as int;
        let object_seq: u64 = item.object_seq;
        assert(all[i] == item@);
        if let Err(error) = catalog.insert_object(object_seq, item.footer) {
            if let Error::CorruptedWalObject { reason } = error {
                proof {
                    lemma_first_failure(all, i + 1, all.len() as int);
                }
                return Err(Error::InvalidWalObject { object_seq, reason });
            }
        }
    }
    Ok(catalog)
}

proof fn lemma_by_seq_len(found: Seq<(u64, Seq<FooterEntry>)>)
    ensures
        by_seq(found).len() == found.len(),
    decreases found.len(),
{
    if found.len() > 0 {
        lemma_by_seq_len(found.drop_last());
        lemma_insert_by_seq_len(by_seq(found.drop_last()), found.last());
    }
}

proof fn lemma_insert_by_seq_len(
    sorted: Seq<(u64, Seq<FooterEntry>)>,
    item: (u64, Seq<FooterEntry>),
)
    ensures
        insert_by_seq(sorted, item).len() == sorted.len() + 1,
    decreases sorted.len(),
{
    if sorted.len() > 0 && sorted.last().0 > item.0 {
        lemma_insert_by_seq_len(sorted.drop_last(), item);
    }
}

/// The largest entry id per region among the first `n` objects.
pub open spec fn durable_ids_upto(objects: Map<u64, Seq<FooterEntry>>, n: int) -> Map<u64, EntryId>
    decreases n,
{
    if n <= 0 {
        Map::empty()
    } else {
        raised_ids(durable_ids_upto(objects, n - 1), objects[ordered_keys(objects)[n - 1]])
    }
}

/// The largest entry id per region among the objects.
pub open spec fn durable_ids(objects: Map<u64, Seq<FooterEntry>>) -> Map<u64, EntryId> {
    durable_ids_upto(objects, ordered_keys(objects).len() as int)
}

/// Returns the largest durable entry id per region.
pub fn durable_entry_ids(catalog: &ObjectCatalog) -> (entry_ids: HashMap<u64, EntryId>)
    requires
        catalog.wf(),
    ensures
        entry_ids@ == durable_ids(catalog@.objects),
{
    let mut entry_ids: HashMap<u64, EntryId> = HashMap::new();
    let objects = catalog.objects_in_order();
    let ghost keys = ordered_keys(catalog@.objects);
    proof {
        catalog.lemma_wf_is_valid();
        lemma_lists_keys(catalog@.objects);
    }
    let n: usize = objects.len();
    let mut i: usize = 0;
    assert(entry_ids@ =~= Map::empty());
    while i < n
        invariant
            catalog@.valid(),
            keys == ordered_keys(catalog@.objects),
            lists_keys(catalog@.objects, keys),
            n == objects@.len(),
            n == keys.len(),
            i <= n,
            forall|k: int|
                0 <= k < objects@.len() ==> (#[trigger] objects@[k]).0 == keys[k]
                    && objects@[k].1@ == catalog@.objects[objects@[k].0],
            entry_ids@ == durable_ids_upto(catalog@.objects, i as int),
        decreases n - i,
    {
        let footer = objects[i].1;
        let ghost model = catalog@.objects[keys[i as int]];
        let ghost before = entry_ids@;
        proof {
            assert(objects@[i as int].0 == keys[i as int]);
            assert(keys.contains(keys[i as int]));
            assert(catalog@.objects.contains_key(keys[i as int]));
            assert(footer@ == model);
            assert(raised_ids(before, model.take(0)) =~= before);
        }
        let m: usize = footer.len();
        let mut j: usize = 0;
        while j < m
            invariant
                footer@ == model,
                increasing_by_region(model),
                m == model.len(),
                j <= m,
                entry_ids@ == raised_ids(before, model.take(j as int)),
            decreases m - j,
        {
            let entry = footer[j];
            let region: u64 = entry.region_id.as_u64();
            let ghost middle = entry_ids@;
            let current: u64 = match entry_ids.get(&region) {
                Some(current) => *current,
                None => 0,
            };
            proof {
                lemma_raised_step(before, model, j as int);
            }
            if current < entry.max_entry_id {
                entry_ids.insert(region, entry.max_entry_id);
            } else {
                entry_ids.insert(region, current);
            }
            assert(entry_ids@ =~= raised_ids(before, model.take(j + 1)));
            j = j + 1;
        }
        assert(model.take(m as int) =~= model);
        i = i + 1;
    }
    entry_ids
}

/// Entering one more segment changes the id of its region only.
proof fn lemma_raised_step(before: Map<u64, EntryId>, footer: Seq<FooterEntry>, j: int)
    requires
        increasing_by_region(footer),
        0 <= j < footer.len(),
    ensures
        ({
            let middle = raised_ids(before, footer.take(j));
            let region = footer[j].region_id.0;
            let current = if middle.contains_key(region) {
                middle[region]
            } else {
                0
            };
            raised_ids(before, footer.take(j + 1)) == middle.insert(
                region,
                if current < footer[j].max_entry_id {
                    footer[j].max_entry_id
                } else {
                    current
                },
            )
        }),
{
    let taken = footer.take(j);
    let next = footer.take(j + 1);
    let region = footer[j].region_id.0;
    assert(increasing_by_region(taken));
    assert(increasing_by_region(next));
    assert(next[j] == footer[j]);
    lemma_entry_of(next, j);
    assert forall|r: u64| #[trigger] has_region(next, r) <==> (has_region(taken, r) || r
        == region) by {
        if has_region(next, r) {
            let k = choose|k: int| 0 <= k < next.len() && (#[trigger] next[k]).region_id.0 == r;
            if k < j {
                assert(taken[k].region_id.0 == r);
            }
        }
        if has_region(taken, r) {
            let k = choose|k: int| 0 <= k < taken.len() && (#[trigger] taken[k]).region_id.0 == r;
            assert(next[k].region_id.0 == r);
        }
    }
    assert(!has_region(taken, region)) by {
        if has_region(taken, region) {
            let k = choose|k: int|
                0 <= k < taken.len() && (#[trigger] taken[k]).region_id.0 == region;
            assert(footer[k].region_id.0 < footer[j].region_id.0);
        }
    }
    assert forall|r: u64| has_region(taken, r) implies #[trigger] entry_of(next, r) == entry_of(
        taken,
        r,
    ) by {
        let k = choose|k: int| 0 <= k < taken.len() && (#[trigger] taken[k]).region_id.0 == r;
        lemma_entry_of(taken, k);
        lemma_entry_of(next, k);
    }
    let middle = raised_ids(before, taken);
    let current = if middle.contains_key(region) {
        middle[region]
    } else {
        0
    };
    assert(raised_ids(before, next) =~= middle.insert(
        region,
        if current < footer[j].max_entry_id {
            footer[j].max_entry_id
        } else {
            current
        },
    ));
}

/// What recovery resumes with: the catalog, the next object sequence and the largest durable entry
/// id per region.
#[derive(Debug)]
pub struct Recovered {
    pub catalog: ObjectCatalog,
    pub next_object_seq: u64,
    pub durable_entry_ids: HashMap<u64, EntryId>,
}

/// The sequence that a store resumes with on a catalog, if one is left.
pub open spec fn resumes_at(catalog: CatalogModel) -> Option<u64> {
    if catalog.next_seq() < OBJECT_SEQ_LIMIT {
        Some(catalog.next_seq() as u64)
    } else {
        None
    }
}

/// Finds what a store resumes with on a rebuilt catalog.
pub fn finish_recovery(catalog: ObjectCatalog) -> (result: Result<Recovered, Error>)
    requires
        catalog.wf(),
    ensures
        match resumes_at(catalog@) {
            Some(next) => result matches Ok(recovered) && recovered.next_object_seq == next,
            None => result is Err,
        },
        catalog@.next_seq() >= OBJECT_SEQ_LIMIT ==> (result matches Err(
            Error::WalObjectSequenceExhausted { last_object_seq },
        ) && last_object_seq == catalog@.next_seq() - 1),
        catalog@.next_seq() < OBJECT_SEQ_LIMIT ==> (result matches Ok(recovered)
            && recovered.catalog.wf() && recovered.catalog@ == catalog@
            && recovered.next_object_seq == catalog@.next_seq()
            && recovered.durable_entry_ids@ == durable_ids(catalog@.objects)),
{
    match catalog.next_object_seq() {
        Ok(next_object_seq) => {
            let durable_entry_ids = durable_entry_ids(&catalog);
            Ok(Recovered { catalog, next_object_seq, durable_entry_ids })
        },
        Err(error) => Err(error),
    }
}

/// Rebuilds what a store resumes with from the footers of the objects under its prefix, in
/// whatever order they were found.
pub fn recover(found: Vec<FoundFooter>) -> (result: Result<Recovered, Error>)
    ensures
        match indexed(by_seq(found_models(found@)), found@.len() as int) {
            Err(error) => result matches Err(failed) && failed == error,
            Ok(catalog) => {
                &&& match resumes_at(catalog) {
                    Some(next) => result matches Ok(recovered) && recovered.next_object_seq == next,
                    None => result is Err,
                }
                &&& catalog.next_seq() >= OBJECT_SEQ_LIMIT ==> (result matches Err(
                    Error::WalObjectSequenceExhausted { last_object_seq },
                ) && last_object_seq == catalog.next_seq() - 1)
                &&& catalog.next_seq() < OBJECT_SEQ_LIMIT ==> (result matches Ok(recovered)
                    && recovered.catalog.wf() && recovered.catalog@ == catalog
                    && recovered.next_object_seq == catalog.next_seq()
                    && recovered.durable_entry_ids@ == durable_ids(catalog.objects))
            },
        },
{
    match build_catalog(found) {
        Ok(catalog) => finish_recovery(catalog),
        Err(error) => Err(error),
    }
}

/// A catalog that indexing objects gives keeps the promises of a catalog.
pub proof fn lemma_indexed_is_valid(found: Seq<(u64, Seq<FooterEntry>)>, n: int)
    requires
        0 <= n <= found.len(),
    ensures
        indexed(found, n) matches Ok(catalog) ==> catalog.valid(),
    decreases n,
{
    if n > 0 {
        lemma_indexed_is_valid(found, n - 1);
        if let Ok(catalog) = indexed(found, n - 1) {
            let (object_seq, footer) = found[n - 1];
            if catalog.rejection(object_seq, footer) is None {
                lemma_insert_keeps_valid(catalog, object_seq, footer);
            }
        }
    } else {
        let catalog = CatalogModel::empty();
        assert forall|region: u64, seq: u64| !#[trigger] catalog.region(region).contains_key(
            seq,
        ) by {}
    }
}

/// The largest ids of the objects are at or below the largest ids that the catalog keeps.
pub proof fn lemma_durable_ids(catalog: CatalogModel, n: int)
    requires
        catalog.valid(),
        0 <= n <= ordered_keys(catalog.objects).len(),
    ensures
        durable(durable_ids_upto(catalog.objects, n), catalog.max_ids),
    decreases n,
{
    if n > 0 {
        lemma_durable_ids(catalog, n - 1);
        lemma_lists_keys(catalog.objects);
        let keys = ordered_keys(catalog.objects);
        let seq = keys[n - 1];
        assert(keys.contains(seq));
        assert(catalog.objects.contains_key(seq));
        let footer = catalog.objects[seq];
        let before = durable_ids_upto(catalog.objects, n - 1);
        let after = durable_ids_upto(catalog.objects, n);
        assert forall|region: u64| #[trigger] after.contains_key(region) implies
            catalog.max_ids.contains_key(region) && after[region] <= catalog.max_ids[region] by {
            if has_region(footer, region) {
                assert(catalog.region(region).contains_key(seq));
                assert(catalog.region(region)[seq] == entry_of(footer, region));
            }
            if before.contains_key(region) {
                assert(catalog.max_ids.contains_key(region));
            }
        }
    }
}

/// What a recovery resumes with is a valid start: an actor opened with it keeps its promises.
pub proof fn lemma_recovery_opens(
    settings: ActorSettings,
    found: Seq<(u64, Seq<FooterEntry>)>,
    catalog: CatalogModel,
)
    requires
        indexed(found, found.len() as int) == Ok::<CatalogModel, Error>(catalog),
        catalog.next_seq() < OBJECT_SEQ_LIMIT,
    ensures
        opened(
            settings,
            catalog,
            catalog.next_seq() as u64,
            durable_ids(catalog.objects),
        ).valid(),
{
    lemma_indexed_is_valid(found, found.len() as int);
    lemma_durable_ids(catalog, ordered_keys(catalog.objects).len() as int);
    lemma_floor_of_ids(catalog.max_ids);
    lemma_opened_is_valid(
        settings,
        catalog,
        catalog.next_seq() as u64,
        durable_ids(catalog.objects),
    );
}

/// The objects of a catalog in sequence order.
pub open spec fn listing(catalog: CatalogModel) -> Seq<(u64, Seq<FooterEntry>)> {
    Seq::new(
        ordered_keys(catalog.objects).len(),
        |i: int|
            (
                ordered_keys(catalog.objects)[i],
                catalog.objects[ordered_keys(catalog.objects)[i]],
            ),
    )
}

/// A restart restores the durable history: indexing the footers of the objects of a catalog in
/// sequence order succeeds and gives a catalog of the same objects, with no id above those that
/// were known before.
pub proof fn lemma_restart_restores_objects(catalog: CatalogModel)
    requires
        catalog.valid(),
    ensures
        indexed(listing(catalog), listing(catalog).len() as int) matches Ok(restored)
            && restored.objects == catalog.objects && durable(restored.max_ids, catalog.max_ids),
{
    let keys = ordered_keys(catalog.objects);
    lemma_lists_keys(catalog.objects);
    lemma_restored_upto(catalog, keys.len() as int);
    let restored = indexed(listing(catalog), keys.len() as int)->Ok_0;
    assert(restored.objects =~= catalog.objects) by {
        assert forall|seq: u64| #[trigger] catalog.objects.contains_key(seq) implies
            restored.objects.contains_key(seq) && restored.objects[seq]
            == catalog.objects[seq] by {
            assert(keys.contains(seq));
            let k = keys.index_of(seq);
            assert(keys[k] == seq);
        }
    }
}

proof fn lemma_restored_upto(catalog: CatalogModel, n: int)
    requires
        catalog.valid(),
        lists_keys(catalog.objects, ordered_keys(catalog.objects)),
        0 <= n <= ordered_keys(catalog.objects).len(),
    ensures
        ({
            let keys = ordered_keys(catalog.objects);
            &&& indexed(listing(catalog), n) matches Ok(part)
            &&& part.valid()
            &&& durable(part.max_ids, catalog.max_ids)
            &&& forall|seq: u64| #[trigger]
                part.objects.contains_key(seq) ==> catalog.objects.contains_key(seq)
                    && part.objects[seq] == catalog.objects[seq] && (n < keys.len() ==> seq
                    < keys[n])
            &&& forall|k: int| 0 <= k < n ==> part.objects.contains_key(#[trigger] keys[k])
        }),
    decreases n,
{
    let keys = ordered_keys(catalog.objects);
    let list = listing(catalog);
    lemma_indexed_is_valid(list, n);
    if n > 0 {
        lemma_restored_upto(catalog, n - 1);
        let part = indexed(list, n - 1)->Ok_0;
        let seq = keys[n - 1];
        let footer = catalog.objects[seq];
        assert(keys.contains(seq));
        assert(catalog.objects.contains_key(seq));
        assert(list[n - 1] == (seq, footer));
        lemma_by_region_of_increasing(footer);
        lemma_no_duplicate_in_increasing(seq, footer, 0);
        lemma_no_invalid_range(seq, footer, 0);
        assert(!part.objects.contains_key(seq));
        lemma_no_conflict_with_part(catalog, part, seq, footer, 0);
        assert(part.rejection(seq, footer) is None);
        let next = part.inserted(seq, footer);
        assert forall|s: u64| #[trigger] next.objects.contains_key(s) implies
            catalog.objects.contains_key(s) && next.objects[s] == catalog.objects[s] && (n
            < keys.len() ==> s < keys[n]) by {
            if n < keys.len() {
                assert(keys[n - 1] < keys[n]);
            }
            if s != seq {
                assert(part.objects.contains_key(s));
            }
        }
        assert forall|region: u64| #[trigger] next.max_ids.contains_key(region) implies
            catalog.max_ids.contains_key(region) && next.max_ids[region]
            <= catalog.max_ids[region] by {
            if has_region(footer, region) {
                assert(catalog.region(region).contains_key(seq));
                assert(catalog.region(region)[seq] == entry_of(footer, region));
            }
            if part.max_ids.contains_key(region) {
                assert(catalog.max_ids.contains_key(region));
            }
        }
    }
}

/// An object fits between any other objects of the catalog it is in.
pub(crate) proof fn lemma_no_conflict_with_part(
    catalog: CatalogModel,
    part: CatalogModel,
    object_seq: u64,
    footer: Seq<FooterEntry>,
    i: int,
)
    requires
        catalog.valid(),
        0 <= i,
        catalog.objects.contains_key(object_seq),
        footer == catalog.objects[object_seq],
        forall|seq: u64| #[trigger]
            part.objects.contains_key(seq) ==> catalog.objects.contains_key(seq)
                && part.objects[seq] == catalog.objects[seq] && seq != object_seq,
    ensures
        conflict_from(part.objects, object_seq, footer, i) is None,
    decreases footer.len() - i,
{
    if i < footer.len() {
        let entry = footer[i];
        let region = entry.region_id.0;
        let model = part.region(region);
        lemma_entry_of(footer, i);
        assert(catalog.region(region).contains_key(object_seq));
        assert(catalog.region(region)[object_seq] == entry);
        assert(conflict_of(part.objects, object_seq, entry) is None) by {
            if let Some(below) = largest_below(model, object_seq) {
                let chosen = choose|b: u64| is_largest_below(model, object_seq, b);
                assert(is_largest_below(model, object_seq, chosen));
                assert(part.objects.contains_key(below));
                assert(catalog.region(region).contains_key(below));
            }
            if let Some(above) = smallest_above(model, object_seq) {
                let chosen = choose|b: u64| is_smallest_above(model, object_seq, b);
                assert(is_smallest_above(model, object_seq, chosen));
                assert(part.objects.contains_key(above));
                assert(catalog.region(region).contains_key(above));
            }
        }
        lemma_no_conflict_with_part(catalog, part, object_seq, footer, i + 1);
    }
}

/// Sequences strictly increase along the items.
pub open spec fn increasing_by_seq(items: Seq<(u64, Seq<FooterEntry>)>) -> bool {
    forall|i: int, j: int| 0 <= i < j < items.len() ==> (#[trigger] items[i]).0 < (#[trigger] items[j]).0
}

/// No two items have the same sequence.
pub open spec fn distinct_seqs(items: Seq<(u64, Seq<FooterEntry>)>) -> bool {
    forall|i: int, j: int|
        0 <= i < items.len() && 0 <= j < items.len() && i != j ==> (#[trigger] items[i]).0 != (
        #[trigger] items[j]).0
}

proof fn lemma_insert_by_seq(
    sorted: Seq<(u64, Seq<FooterEntry>)>,
    item: (u64, Seq<FooterEntry>),
)
    requires
        increasing_by_seq(sorted),
        forall|i: int| 0 <= i < sorted.len() ==> (#[trigger] sorted[i]).0 != item.0,
    ensures
        increasing_by_seq(insert_by_seq(sorted, item)),
        forall|x: (u64, Seq<FooterEntry>)| #[trigger]
            insert_by_seq(sorted, item).contains(x) <==> (sorted.contains(x) || x == item),
    decreases sorted.len(),
{
    let result = insert_by_seq(sorted, item);
    if sorted.len() == 0 || sorted.last().0 <= item.0 {
        if sorted.len() > 0 {
            assert(sorted[sorted.len() - 1].0 != item.0);
        }
        assert forall|x: (u64, Seq<FooterEntry>)| #[trigger]
            result.contains(x) <==> (sorted.contains(x) || x == item) by {
            if sorted.contains(x) {
                assert(result[sorted.index_of(x)] == x);
            }
            assert(result[sorted.len() as int] == item);
            if result.contains(x) {
                let k = result.index_of(x);
                if k < sorted.len() {
                    assert(sorted[k] == x);
                }
            }
        }
    } else {
        let rest = sorted.drop_last();
        let last = sorted.last();
        assert forall|i: int, j: int| 0 <= i < j < rest.len() implies (#[trigger] rest[i]).0 < (
        #[trigger] rest[j]).0 by {
            assert(sorted[i].0 < sorted[j].0);
        }
        assert forall|i: int| 0 <= i < rest.len() implies (#[trigger] rest[i]).0 != item.0 by {
            assert(sorted[i].0 != item.0);
        }
        lemma_insert_by_seq(rest, item);
        let inner = insert_by_seq(rest, item);
        assert forall|i: int, j: int| 0 <= i < j < result.len() implies (#[trigger] result[i]).0 < (
        #[trigger] result[j]).0 by {
            if j < inner.len() {
                assert(inner[i].0 < inner[j].0);
            } else {
                assert(inner.contains(inner[i]));
                if inner[i] != item {
                    assert(rest.contains(inner[i]));
                    let k = rest.index_of(inner[i]);
                    assert(sorted[k].0 < sorted[sorted.len() - 1].0);
                }
            }
        }
        assert forall|x: (u64, Seq<FooterEntry>)| #[trigger]
            result.contains(x) <==> (sorted.contains(x) || x == item) by {
            if sorted.contains(x) {
                let k = sorted.index_of(x);
                if k < rest.len() {
                    assert(rest[k] == x);
                    assert(inner.contains(x));
                    assert(result[inner.index_of(x)] == x);
                } else {
                    assert(result[inner.len() as int] == x);
                }
            }
            if x == item {
                assert(inner.contains(x));
                assert(result[inner.index_of(x)] == x);
            }
            if result.contains(x) {
                let k = result.index_of(x);
                if k < inner.len() {
                    assert(inner[k] == x);
                    assert(inner.contains(x));
                    if rest.contains(x) {
                        assert(sorted[rest.index_of(x)] == x);
                    }
                } else {
                    assert(sorted[sorted.len() - 1] == x);
                }
            }
        }
    }
}

proof fn lemma_by_seq(found: Seq<(u64, Seq<FooterEntry>)>)
    requires
        distinct_seqs(found),
    ensures
        increasing_by_seq(by_seq(found)),
        forall|x: (u64, Seq<FooterEntry>)| #[trigger]
            by_seq(found).contains(x) <==> found.contains(x),
    decreases found.len(),
{
    if found.len() > 0 {
        let rest = found.drop_last();
        let last = found.last();
        assert forall|i: int, j: int|
            0 <= i < rest.len() && 0 <= j < rest.len() && i != j implies (#[trigger] rest[i]).0 != (
        #[trigger] rest[j]).0 by {
            assert(found[i].0 != found[j].0);
        }
        lemma_by_seq(rest);
        let sorted = by_seq(rest);
        assert forall|i: int| 0 <= i < sorted.len() implies (#[trigger] sorted[i]).0 != last.0 by {
            assert(sorted.contains(sorted[i]));
            assert(rest.contains(sorted[i]));
            let k = rest.index_of(sorted[i]);
            assert(found[k].0 != found[found.len() - 1].0);
        }
        lemma_insert_by_seq(sorted, last);
        assert forall|x: (u64, Seq<FooterEntry>)| #[trigger]
            by_seq(found).contains(x) <==> found.contains(x) by {
            if rest.contains(x) {
                assert(found[rest.index_of(x)] == x);
            }
            assert(found[found.len() - 1] == last);
            if found.contains(x) {
                let k = found.index_of(x);
                if k < rest.len() {
                    assert(rest[k] == x);
                }
            }
        }
    }
}

proof fn lemma_increasing_by_seq_is_unique(
    a: Seq<(u64, Seq<FooterEntry>)>,
    b: Seq<(u64, Seq<FooterEntry>)>,
)
    requires
        increasing_by_seq(a),
        increasing_by_seq(b),
        forall|x: (u64, Seq<FooterEntry>)| #[trigger] a.contains(x) <==> b.contains(x),
    ensures
        a == b,
    decreases a.len(),
{
    if a.len() == 0 {
        if b.len() > 0 {
            assert(b.contains(b[0]));
            assert(a.contains(b[0]));
        }
        assert(a =~= b);
    } else {
        assert(a.contains(a[a.len() - 1]));
        assert(b.contains(a.last()));
        let in_b = b.index_of(a.last());
        assert(b[in_b] == a.last());
        assert(b.contains(b[b.len() - 1]));
        assert(a.contains(b.last()));
        let in_a = a.index_of(b.last());
        assert(a[in_a] == b.last());
        assert(a.last() == b.last()) by {
            if in_b < b.len() - 1 {
                assert(b[in_b].0 < b[b.len() - 1].0);
                if in_a < a.len() - 1 {
                    assert(a[in_a].0 < a[a.len() - 1].0);
                }
            }
        }
        let a0 = a.drop_last();
        let b0 = b.drop_last();
        assert(increasing_by_seq(a0)) by {
            assert forall|i: int, j: int| 0 <= i < j < a0.len() implies (#[trigger] a0[i]).0 < (
            #[trigger] a0[j]).0 by {
                assert(a[i].0 < a[j].0);
            }
        }
        assert(increasing_by_seq(b0)) by {
            assert forall|i: int, j: int| 0 <= i < j < b0.len() implies (#[trigger] b0[i]).0 < (
            #[trigger] b0[j]).0 by {
                assert(b[i].0 < b[j].0);
            }
        }
        assert forall|x: (u64, Seq<FooterEntry>)| #[trigger] a0.contains(x) <==> b0.contains(x) by {
            if a0.contains(x) {
                let i = a0.index_of(x);
                assert(a[i] == x);
                assert(a[i].0 < a[a.len() - 1].0);
                assert(a.contains(x));
                let j = b.index_of(x);
                assert(b[j] == x);
                assert(b0[j] == x);
            }
            if b0.contains(x) {
                let i = b0.index_of(x);
                assert(b[i] == x);
                assert(b[i].0 < b[b.len() - 1].0);
                assert(b.contains(x));
                assert(a.contains(x));
                let j = a.index_of(x);
                assert(a[j] == x);
                assert(a0[j] == x);
            }
        }
        lemma_increasing_by_seq_is_unique(a0, b0);
        assert(a =~= a0.push(a.last()));
        assert(b =~= b0.push(b.last()));
    }
}

/// The order in which footers are found does not matter: the same footers give the same catalog.
pub proof fn lemma_recovery_ignores_order(
    a: Seq<(u64, Seq<FooterEntry>)>,
    b: Seq<(u64, Seq<FooterEntry>)>,
)
    requires
        distinct_seqs(a),
        distinct_seqs(b),
        forall|x: (u64, Seq<FooterEntry>)| #[trigger] a.contains(x) <==> b.contains(x),
    ensures
        by_seq(a) == by_seq(b),
{
    lemma_by_seq(a);
    lemma_by_seq(b);
    assert forall|x: (u64, Seq<FooterEntry>)| #[trigger] by_seq(a).contains(x) <==> by_seq(
        b,
    ).contains(x) by {
        assert(a.contains(x) <==> b.contains(x));
    }
    lemma_increasing_by_seq_is_unique(by_seq(a), by_seq(b));
}

} // verus!
