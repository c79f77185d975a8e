//! The chunk index: the one place where chunk records live, keyed by
//! coordinate.

use vstd::prelude::*;
use crate::coord_set::{
    coord_set_contains, coord_set_contents, coord_set_insert, coord_set_new, coord_set_remove,
    CoordSet,
};
use crate::coords::ChunkCoordinate;
use crate::record::{ChunkRecord, GenerationState, LoadState};

verus! {

/// Why the index refused an operation.
#[derive(Clone, Copy, Debug, PartialEq, Eq, Structural)]
pub enum IndexError {
    /// A record with this coordinate is already in the index.
    DuplicateCoordinate,
    /// The record has not been asked to unload, so it cannot be evicted.
    StillLive,
}

/// Whether some record of `entries` has coordinate `c`.
pub open spec fn holds(entries: Seq<ChunkRecord>, c: ChunkCoordinate) -> bool {
    exists|i: int| 0 <= i < entries.len() && (#[trigger] entries[i]).coordinate == c
}

/// A position in `entries` of a record with coordinate `c`, if there is one.
pub open spec fn position_of(entries: Seq<ChunkRecord>, c: ChunkCoordinate) -> int {
    choose|i: int| 0 <= i < entries.len() && (#[trigger] entries[i]).coordinate == c
}

/// No two records of `entries` share a coordinate.
pub open spec fn distinct_coordinates(entries: Seq<ChunkRecord>) -> bool {
    forall|i: int, j: int|
        0 <= i < j < entries.len() ==> (#[trigger] entries[i]).coordinate != (
        #[trigger] entries[j]).coordinate
}

/// The records of `entries`, keyed by coordinate.
pub open spec fn entries_map(entries: Seq<ChunkRecord>) -> Map<ChunkCoordinate, ChunkRecord> {
    Map::new(|c: ChunkCoordinate| holds(entries, c), |c: ChunkCoordinate| entries[position_of(entries, c)])
}

/// In a sequence without repeated coordinates, each record is the one that
/// the map gives for its coordinate.
pub proof fn lemma_entry_is_mapped(entries: Seq<ChunkRecord>, i: int)
    requires
        distinct_coordinates(entries),
        0 <= i < entries.len(),
    ensures
        holds(entries, entries[i].coordinate),
        position_of(entries, entries[i].coordinate) == i,
        entries_map(entries).dom().contains(entries[i].coordinate),
        entries_map(entries)[entries[i].coordinate] == entries[i],
{
    let c = entries[i].coordinate;
    let k = position_of(entries, c);
    assert(0 <= k < entries.len() && entries[k].coordinate == c);
    if k < i {
        assert(entries[k].coordinate != entries[i].coordinate);
    } else if i < k {
        assert(entries[i].coordinate != entries[k].coordinate);
    }
}

/// Appending a record with a new coordinate adds one key to the map.
pub proof fn lemma_map_after_push(entries: Seq<ChunkRecord>, r: ChunkRecord)
    requires
        distinct_coordinates(entries),
        !holds(entries, r.coordinate),
    ensures
        distinct_coordinates(entries.push(r)),
        entries_map(entries.push(r)) == entries_map(entries).insert(r.coordinate, r),
        forall|c: ChunkCoordinate| holds(entries.push(r), c) <==> (holds(entries, c) || c == r.coordinate),
{
    let after = entries.push(r);
    assert forall|i: int, j: int| 0 <= i < j < after.len() implies (#[trigger] after[i]).coordinate != (
    #[trigger] after[j]).coordinate by {
        if j < entries.len() {
            assert(entries[i].coordinate != entries[j].coordinate);
        } else {
            assert(entries[i].coordinate != r.coordinate);
        }
    }
    assert forall|c: ChunkCoordinate| holds(after, c) <==> (holds(entries, c) || c == r.coordinate) by {
        if holds(entries, c) {
            let k = position_of(entries, c);
            assert(after[k].coordinate == c);
        }
        if c == r.coordinate {
            assert(after[entries.len() as int].coordinate == c);
        }
        if holds(after, c) {
            let k = position_of(after, c);
            if k < entries.len() {
                assert(entries[k].coordinate == c);
            }
        }
    }
    assert forall|c: ChunkCoordinate| holds(after, c) implies #[trigger] entries_map(after)[c]
        == entries_map(entries).insert(r.coordinate, r)[c] by {
        let k = position_of(after, c);
        lemma_entry_is_mapped(after, k);
        if k < entries.len() {
            assert(entries[k].coordinate == c);
            lemma_entry_is_mapped(entries, k);
        }
    }
    assert(entries_map(after) =~= entries_map(entries).insert(r.coordinate, r));
}

/// Replacing a record by one with the same coordinate replaces one value of
/// the map.
pub proof fn lemma_map_after_update(entries: Seq<ChunkRecord>, i: int, r: ChunkRecord)
    requires
        distinct_coordinates(entries),
        0 <= i < entries.len(),
        r.coordinate == entries[i].coordinate,
    ensures
        distinct_coordinates(entries.update(i, r)),
        entries_map(entries.update(i, r)) == entries_map(entries).insert(r.coordinate, r),
        forall|c: ChunkCoordinate| holds(entries.update(i, r), c) <==> holds(entries, c),
{
    let after = entries.update(i, r);
    assert forall|a: int, b: int| 0 <= a < b < after.len() implies (#[trigger] after[a]).coordinate != (
    #[trigger] after[b]).coordinate by {
        assert(entries[a].coordinate != entries[b].coordinate);
    }
    assert forall|c: ChunkCoordinate| holds(after, c) <==> holds(entries, c) by {
        if holds(entries, c) {
            let k = position_of(entries, c);
            assert(after[k].coordinate == c);
        }
        if holds(after, c) {
            let k = position_of(after, c);
            assert(entries[k].coordinate == c);
        }
    }
    lemma_entry_is_mapped(entries, i);
    assert forall|c: ChunkCoordinate| holds(after, c) implies #[trigger] entries_map(after)[c]
        == entries_map(entries).insert(r.coordinate, r)[c] by {
        let k = position_of(after, c);
        lemma_entry_is_mapped(after, k);
        assert(entries[k].coordinate == c);
        lemma_entry_is_mapped(entries, k);
    }
    assert(entries_map(after) =~= entries_map(entries).insert(r.coordinate, r));
}

/// Taking a record out of the sequence takes its key out of the map.
pub proof fn lemma_map_after_remove(entries: Seq<ChunkRecord>, i: int)
    requires
        distinct_coordinates(entries),
        0 <= i < entries.len(),
    ensures
        distinct_coordinates(entries.remove(i)),
        entries_map(entries.remove(i)) == entries_map(entries).remove(entries[i].coordinate),
        forall|c: ChunkCoordinate|
            holds(entries.remove(i), c) <==> (holds(entries, c) && c != entries[i].coordinate),
{
    let after = entries.remove(i);
    let gone = entries[i].coordinate;
    assert forall|a: int, b: int| 0 <= a < b < after.len() implies (#[trigger] after[a]).coordinate != (
    #[trigger] after[b]).coordinate by {
        let a0 = if a < i { a } else { a + 1 };
        let b0 = if b < i { b } else { b + 1 };
        assert(entries[a0].coordinate != entries[b0].coordinate);
    }
    assert forall|c: ChunkCoordinate| holds(after, c) <==> (holds(entries, c) && c != gone) by {
        if holds(entries, c) && c != gone {
            let k = position_of(entries, c);
            let k1 = if k < i { k } else { k - 1 };
            assert(after[k1].coordinate == c);
        }
        if holds(after, c) {
            let k = position_of(after, c);
            let k0 = if k < i { k } else { k + 1 };
            assert(entries[k0].coordinate == c);
            if k0 < i {
                assert(entries[k0].coordinate != entries[i].coordinate);
            } else {
                assert(entries[i].coordinate != entries[k0].coordinate);
            }
        }
    }
    assert forall|c: ChunkCoordinate| holds(after, c) implies #[trigger] entries_map(after)[c]
        == entries_map(entries).remove(gone)[c] by {
        let k = position_of(after, c);
        lemma_entry_is_mapped(after, k);
        let k0 = if k < i { k } else { k + 1 };
        assert(entries[k0].coordinate == c);
        lemma_entry_is_mapped(entries, k0);
    }
    assert(entries_map(after) =~= entries_map(entries).remove(gone));
}

/// The map of a sequence without repeated coordinates has as many keys as
/// the sequence has records.
pub proof fn lemma_domain_size(entries: Seq<ChunkRecord>)
    requires
        distinct_coordinates(entries),
    ensures
        entries_map(entries).dom().finite(),
        entries_map(entries).dom().len() == entries.len(),
    decreases entries.len(),
{
    if entries.len() == 0 {
        assert(entries_map(entries).dom() =~= Set::<ChunkCoordinate>::empty());
    } else {
        let front = entries.drop_last();
        let last = entries.last();
        assert(front.push(last) =~= entries);
        assert forall|i: int, j: int| 0 <= i < j < front.len() implies (#[trigger] front[i]).coordinate != (
        #[trigger] front[j]).coordinate by {
            assert(entries[i].coordinate != entries[j].coordinate);
        }
        assert(!holds(front, last.coordinate)) by {
            if holds(front, last.coordinate) {
                let k = position_of(front, last.coordinate);
                assert(entries[k].coordinate != entries[entries.len() - 1].coordinate);
            }
        }
        lemma_domain_size(front);
        lemma_map_after_push(front, last);
        assert(entries_map(entries).dom() =~= entries_map(front).dom().insert(last.coordinate));
    }
}

/// `listed` holds, once each, the coordinates of the records among the first
/// `i` of `entries` that `keep` selects.
pub open spec fn lists_selected(
    listed: Seq<ChunkCoordinate>,
    entries: Seq<ChunkRecord>,
    i: int,
    keep: spec_fn(ChunkRecord) -> bool,
) -> bool {
    &&& listed.no_duplicates()
    &&& forall|c: ChunkCoordinate| #[trigger]
        listed.contains(c) <==> (exists|j: int|
            0 <= j < i && j < entries.len() && (#[trigger] entries[j]).coordinate == c && keep(entries[j]))
}

/// Going one record further: its coordinate is appended if `keep` selects it.
pub proof fn lemma_list_next(
    listed: Seq<ChunkCoordinate>,
    entries: Seq<ChunkRecord>,
    i: int,
    keep: spec_fn(ChunkRecord) -> bool,
)
    requires
        distinct_coordinates(entries),
        0 <= i < entries.len(),
        lists_selected(listed, entries, i, keep),
    ensures
        keep(entries[i]) ==> lists_selected(listed.push(entries[i].coordinate), entries, i + 1, keep),
        !keep(entries[i]) ==> lists_selected(listed, entries, i + 1, keep),
{
    let here = entries[i].coordinate;
    let next = if keep(entries[i]) {
        listed.push(here)
    } else {
        listed
    };
    if keep(entries[i]) {
        if listed.contains(here) {
            let j = choose|j: int|
                0 <= j < i && j < entries.len() && (#[trigger] entries[j]).coordinate == here && keep(entries[j]);
            assert(entries[j].coordinate != entries[i].coordinate);
        }
        assert forall|a: int, b: int| 0 <= a < next.len() && 0 <= b < next.len() && a != b implies next[a]
            != next[b] by {
            if a < listed.len() && b < listed.len() {
                assert(listed[a] != listed[b]);
            } else if a < listed.len() {
                assert(listed.contains(listed[a]));
            } else {
                assert(listed.contains(listed[b]));
            }
        }
    }
    assert forall|c: ChunkCoordinate| #[trigger]
        next.contains(c) <==> (exists|j: int|
            0 <= j < i + 1 && j < entries.len() && (#[trigger] entries[j]).coordinate == c && keep(
                entries[j],
            )) by {
        if next.contains(c) {
            let k = choose|k: int| 0 <= k < next.len() && next[k] == c;
            if k < listed.len() {
                assert(listed[k] == c);
                assert(listed.contains(c));
                let j = choose|j: int|
                    0 <= j < i && j < entries.len() && (#[trigger] entries[j]).coordinate == c && keep(
                        entries[j],
                    );
                assert(0 <= j < i + 1 && entries[j].coordinate == c && keep(entries[j]));
            } else {
                assert(entries[i].coordinate == c && keep(entries[i]));
            }
        }
        if exists|j: int|
            0 <= j < i + 1 && j < entries.len() && (#[trigger] entries[j]).coordinate == c && keep(entries[j]) {
            let j = choose|j: int|
                0 <= j < i + 1 && j < entries.len() && (#[trigger] entries[j]).coordinate == c && keep(
                    entries[j],
                );
            if j < i {
                assert(listed.contains(c));
                let k = choose|k: int| 0 <= k < listed.len() && listed[k] == c;
                assert(next[k] == c);
            } else {
                assert(next[listed.len() as int] == c);
            }
        }
    }
}

/// A list of the selected records of all entries, read off the map.
pub proof fn lemma_list_complete(
    listed: Seq<ChunkCoordinate>,
    entries: Seq<ChunkRecord>,
    keep: spec_fn(ChunkRecord) -> bool,
)
    requires
        distinct_coordinates(entries),
        lists_selected(listed, entries, entries.len() as int, keep),
    ensures
        forall|c: ChunkCoordinate| #[trigger]
            listed.contains(c) <==> (entries_map(entries).dom().contains(c) && keep(entries_map(entries)[c])),
{
    assert forall|c: ChunkCoordinate| #[trigger]
        listed.contains(c) <==> (entries_map(entries).dom().contains(c) && keep(entries_map(entries)[c])) by {
        if listed.contains(c) {
            let j = choose|j: int|
                0 <= j < entries.len() && j < entries.len() && (#[trigger] entries[j]).coordinate == c && keep(
                    entries[j],
                );
            lemma_entry_is_mapped(entries, j);
        }
        if entries_map(entries).dom().contains(c) && keep(entries_map(entries)[c]) {
            let k = position_of(entries, c);
            lemma_entry_is_mapped(entries, k);
            assert(0 <= k < entries.len() && entries[k].coordinate == c && keep(entries[k]));
        }
    }
}

/// The live chunk records, keyed by coordinate.
///
/// The records stand in the order in which they were inserted; beside them a
/// hash set of their coordinates answers existence checks.
pub struct ChunkIndex {
    records: Vec<ChunkRecord>,
    coords: CoordSet,
}

impl View for ChunkIndex {
    type V = Map<ChunkCoordinate, ChunkRecord>;

    /// The records, keyed by coordinate.
    open spec fn view(&self) -> Map<ChunkCoordinate, ChunkRecord> {
        entries_map(self.entries())
    }
}

impl ChunkIndex {
    /// The records in the order in which they were inserted.
    pub closed spec fn entries(&self) -> Seq<ChunkRecord> {
        self.records@
    }

    /// The hash set holds the coordinates of the records, and no others.
    pub closed spec fn set_agrees(&self) -> bool {
        forall|c: ChunkCoordinate|
            #![trigger holds(self.records@, c)]
            coord_set_contents(self.coords).contains((c.x, c.y, c.z)) <==> holds(self.records@, c)
    }

    /// No coordinate occurs twice, and the hash set agrees with the records.
    pub open spec fn wf(&self) -> bool {
        &&& distinct_coordinates(self.entries())
        &&& self.set_agrees()
    }

    /// An index without records.
    pub fn new() -> (index: Self)
        ensures
            index.wf(),
            index.entries() == Seq::<ChunkRecord>::empty(),
            index@ == Map::<ChunkCoordinate, ChunkRecord>::empty(),
    {
        let index = ChunkIndex { records: Vec::new(), coords: coord_set_new() };
        proof {
            assert(index@ =~= Map::<ChunkCoordinate, ChunkRecord>::empty());
        }
        index
    }

    /// How many records the index holds.
    pub fn len(&self) -> (n: usize)
        ensures
            n == self.entries().len(),
            self.wf() ==> self@.dom().finite() && n == self@.dom().len(),
    {
        proof {
            if self.wf() {
                lemma_domain_size(self.records@);
            }
        }
        self.records.len()
    }

    /// The record at position `i`.
    pub fn entry(&self, i: usize) -> (r: ChunkRecord)
        requires
            i < self.entries().len(),
        ensures
            r == self.entries()[i as int],
    {
        self.records[i]
    }

    /// All records, in the order in which they were inserted.
    pub fn records(&self) -> (all: Vec<ChunkRecord>)
        ensures
            all@ == self.entries(),
    {
        let mut all: Vec<ChunkRecord> = Vec::new();
        let mut i: usize = 0;
        while i < self.records.len()
            invariant
                0 <= i <= self.records.len(),
                all@ == self.records@.subrange(0, i as int),
            decreases self.records.len() - i,
        {
            all.push(self.records[i]);
            proof {
                assert(all@ =~= self.records@.subrange(0, i + 1));
            }
            i += 1;
        }
        proof {
            assert(all@ =~= self.records@);
        }
        all
    }

    /// Whether a record with coordinate `c` is in the index.
    pub fn contains(&self, c: &ChunkCoordinate) -> (found: bool)
        requires
            self.wf(),
        ensures
            found == self@.dom().contains(*c),
            found == holds(self.entries(), *c),
    {
        coord_set_contains(&self.coords, c.x, c.y, c.z)
    }

    /// The position of the record with coordinate `c`, if the index holds one.
    pub fn position(&self, c: &ChunkCoordinate) -> (at: Option<usize>)
        requires
            self.wf(),
        ensures
            at.is_some() <==> self@.dom().contains(*c),
            at matches Some(i) ==> i < self.entries().len() && self.entries()[i as int].coordinate == *c
                && self.entries()[i as int] == self@[*c],
    {
        if !coord_set_contains(&self.coords, c.x, c.y, c.z) {
            return None;
        }
        let mut i: usize = 0;
        while i < self.records.len()
            invariant
                0 <= i <= self.records.len(),
                distinct_coordinates(self.records@),
                forall|j: int| 0 <= j < i ==> (#[trigger] self.records@[j]).coordinate != *c,
            decreases self.records.len() - i,
        {
            if self.records[i].coordinate == *c {
                proof {
                    lemma_entry_is_mapped(self.records@, i as int);
                }
                return Some(i);
            }
            i += 1;
        }
        proof {
            assert(!holds(self.records@, *c));
        }
        None
    }

    /// The record with coordinate `c`, if the index holds one.
    pub fn get(&self, c: &ChunkCoordinate) -> (r: Option<ChunkRecord>)
        requires
            self.wf(),
        ensures
            r == (if self@.dom().contains(*c) {
                Some(self@[*c])
            } else {
                None
            }),
    {
        match self.position(c) {
            Some(i) => Some(self.records[i]),
            None => None,
        }
    }

    /// Adds a record, unless one with its coordinate is already there.
    pub fn insert(&mut self, record: ChunkRecord) -> (r: Result<(), IndexError>)
        requires
            old(self).wf(),
        ensures
            final(self).wf(),
            r.is_ok() <==> !old(self)@.dom().contains(record.coordinate),
            r.is_ok() ==> final(self)@ == old(self)@.insert(record.coordinate, record)
                && final(self).entries() == old(self).entries().push(record),
            r.is_err() ==> r == Err::<(), IndexError>(IndexError::DuplicateCoordinate)
                && final(self)@ == old(self)@ && final(self).entries() == old(self).entries(),
    {
        let c: ChunkCoordinate = record.coordinate;
        if coord_set_contains(&self.coords, c.x, c.y, c.z) {
            return Err(IndexError::DuplicateCoordinate);
        }
        proof {
            lemma_map_after_push(self.records@, record);
        }
        self.records.push(record);
        let fresh: bool = coord_set_insert(&mut self.coords, c.x, c.y, c.z);
        assert(fresh);
        proof {
            assert forall|d: ChunkCoordinate|
                #![trigger holds(self.records@, d)]
                coord_set_contents(self.coords).contains((d.x, d.y, d.z)) <==> holds(
                    self.records@,
                    d,
                ) by {
                assert(holds(old(self).records@, d) <==> coord_set_contents(
                    old(self).coords,
                ).contains((d.x, d.y, d.z)));
                assert((d.x, d.y, d.z) == (c.x, c.y, c.z) <==> d == c);
            }
        }
        Ok(())
    }

    /// Evicts the record with coordinate `c`. Nothing happens if the index
    /// holds none. A record that has not been asked to unload stays, and the
    /// call fails.
    pub fn remove(&mut self, c: &ChunkCoordinate) -> (r: Result<(), IndexError>)
        requires
            old(self).wf(),
        ensures
            final(self).wf(),
            r.is_err() <==> (old(self)@.dom().contains(*c) && old(self)@[*c].load_state.is_live()),
            r.is_err() ==> r == Err::<(), IndexError>(IndexError::StillLive) && final(self)@ == old(
                self,
            )@ && final(self).entries() == old(self).entries(),
            r.is_ok() ==> final(self)@ == old(self)@.remove(*c),
            r.is_ok() && old(self)@.dom().contains(*c) ==> final(self).entries() == old(self).entries().remove(
                position_of(old(self).entries(), *c),
            ),
            !old(self)@.dom().contains(*c) ==> final(self).entries() == old(self).entries(),
    {
        match self.position(c) {
            None => {
                proof {
                    assert(self@.remove(*c) =~= self@);
                }
                Ok(())
            },
            Some(i) => {
                if self.records[i].load_state.is_live() {
                    return Err(IndexError::StillLive);
                }
                proof {
                    lemma_map_after_remove(self.records@, i as int);
                    lemma_entry_is_mapped(self.records@, i as int);
                }
                self.records.remove(i);
                let present: bool = coord_set_remove(&mut self.coords, c.x, c.y, c.z);
                assert(present);
                proof {
                    assert forall|d: ChunkCoordinate|
                        #![trigger holds(self.records@, d)]
                        coord_set_contents(self.coords).contains((d.x, d.y, d.z)) <==> holds(
                            self.records@,
                            d,
                        ) by {
                        assert(holds(old(self).records@, d) <==> coord_set_contents(
                            old(self).coords,
                        ).contains((d.x, d.y, d.z)));
                        assert((d.x, d.y, d.z) == (c.x, c.y, c.z) <==> d == *c);
                    }
                }
                Ok(())
            },
        }
    }

    /// Moves the record at position `i` to load state `next`, if that is a
    /// step of the load lifecycle; otherwise nothing changes.
    pub fn advance_load_at(&mut self, i: usize, next: LoadState) -> (moved: bool)
        requires
            old(self).wf(),
            i < old(self).entries().len(),
        ensures
            final(self).wf(),
            moved == old(self).entries()[i as int].load_state.may_become(next),
            moved ==> final(self).entries() == old(self).entries().update(
                i as int,
                old(self).entries()[i as int].with_load_state(next),
            ),
            moved ==> final(self)@ == old(self)@.insert(
                old(self).entries()[i as int].coordinate,
                old(self).entries()[i as int].with_load_state(next),
            ),
            !moved ==> final(self)@ == old(self)@ && final(self).entries() == old(self).entries(),
    {
        let before: ChunkRecord = self.records[i];
        if !before.load_state.can_advance_to(next) {
            return false;
        }
        let after: ChunkRecord = ChunkRecord {
            coordinate: before.coordinate,
            load_state: next,
            generation_state: before.generation_state,
        };
        proof {
            lemma_map_after_update(self.records@, i as int, after);
        }
        self.records.set(i, after);
        proof {
            assert forall|d: ChunkCoordinate|
                #![trigger holds(self.records@, d)]
                coord_set_contents(self.coords).contains((d.x, d.y, d.z)) <==> holds(
                    self.records@,
                    d,
                ) by {
                assert(holds(old(self).records@, d) <==> coord_set_contents(
                    old(self).coords,
                ).contains((d.x, d.y, d.z)));
            }
        }
        true
    }

    /// Moves the record at position `i` to generation state `next`, if that
    /// is a step of the generation lifecycle; otherwise nothing changes.
    pub fn advance_generation_at(&mut self, i: usize, next: GenerationState) -> (moved: bool)
        requires
            old(self).wf(),
            i < old(self).entries().len(),
        ensures
            final(self).wf(),
            moved == old(self).entries()[i as int].generation_state.may_become(next),
            moved ==> final(self).entries() == old(self).entries().update(
                i as int,
                old(self).entries()[i as int].with_generation_state(next),
            ),
            moved ==> final(self)@ == old(self)@.insert(
                old(self).entries()[i as int].coordinate,
                old(self).entries()[i as int].with_generation_state(next),
            ),
            !moved ==> final(self)@ == old(self)@ && final(self).entries() == old(self).entries(),
    {
        let before: ChunkRecord = self.records[i];
        if !before.generation_state.can_advance_to(next) {
            return false;
        }
        let after: ChunkRecord = ChunkRecord {
            coordinate: before.coordinate,
            load_state: before.load_state,
            generation_state: next,
        };
        proof {
            lemma_map_after_update(self.records@, i as int, after);
        }
        self.records.set(i, after);
        proof {
            assert forall|d: ChunkCoordinate|
                #![trigger holds(self.records@, d)]
                coord_set_contents(self.coords).contains((d.x, d.y, d.z)) <==> holds(
                    self.records@,
                    d,
                ) by {
                assert(holds(old(self).records@, d) <==> coord_set_contents(
                    old(self).coords,
                ).contains((d.x, d.y, d.z)));
            }
        }
        true
    }

    /// Moves the record with coordinate `c` to load state `next`, if the
    /// index holds it and that is a step of the load lifecycle; otherwise
    /// nothing changes.
    pub fn advance_load(&mut self, c: &ChunkCoordinate, next: LoadState) -> (moved: bool)
        requires
            old(self).wf(),
        ensures
            final(self).wf(),
            moved == (old(self)@.dom().contains(*c) && old(self)@[*c].load_state.may_become(next)),
            moved ==> final(self)@ == old(self)@.insert(*c, old(self)@[*c].with_load_state(next)),
            !moved ==> final(self)@ == old(self)@ && final(self).entries() == old(self).entries(),
    {
        match self.position(c) {
            Some(i) => self.advance_load_at(i, next),
            None => false,
        }
    }

    /// Moves the record with coordinate `c` to generation state `next`, if
    /// the index holds it and that is a step of the generation lifecycle;
    /// otherwise nothing changes.
    pub fn advance_generation(&mut self, c: &ChunkCoordinate, next: GenerationState) -> (moved: bool)
        requires
            old(self).wf(),
        ensures
            final(self).wf(),
            moved == (old(self)@.dom().contains(*c) && old(self)@[*c].generation_state.may_become(
                next,
            )),
            moved ==> final(self)@ == old(self)@.insert(
                *c,
                old(self)@[*c].with_generation_state(next),
            ),
            !moved ==> final(self)@ == old(self)@ && final(self).entries() == old(self).entries(),
    {
        match self.position(c) {
            Some(i) => self.advance_generation_at(i, next),
            None => false,
        }
    }

    /// The renderable set: the coordinates of the records that are live, each
    /// once.
    pub fn live_coordinates(&self) -> (live: Vec<ChunkCoordinate>)
        requires
            self.wf(),
        ensures
            live@.no_duplicates(),
            forall|c: ChunkCoordinate| #[trigger]
                live@.contains(c) <==> (self@.dom().contains(c) && self@[c].load_state.spec_is_live()),
    {
        let ghost keep = |r: ChunkRecord| r.load_state.spec_is_live();
        let mut live: Vec<ChunkCoordinate> = Vec::new();
        let mut i: usize = 0;
        while i < self.records.len()
            invariant
                0 <= i <= self.records.len(),
                distinct_coordinates(self.records@),
                keep == (|r: ChunkRecord| r.load_state.spec_is_live()),
                lists_selected(live@, self.records@, i as int, keep),
            decreases self.records.len() - i,
        {
            proof {
                lemma_list_next(live@, self.records@, i as int, keep);
            }
            if self.records[i].load_state.is_live() {
                live.push(self.records[i].coordinate);
            }
            i += 1;
        }
        proof {
            lemma_list_complete(live@, self.records@, keep);
        }
        live
    }

    /// The coordinates of the records whose generation has not started, each
    /// once.
    pub fn pending_generation(&self) -> (pending: Vec<ChunkCoordinate>)
        requires
            self.wf(),
        ensures
            pending@.no_duplicates(),
            forall|c: ChunkCoordinate| #[trigger]
                pending@.contains(c) <==> (self@.dom().contains(c) && self@[c].generation_state
                    == GenerationState::NotStarted),
    {
        let ghost keep = |r: ChunkRecord| r.generation_state == GenerationState::NotStarted;
        let mut pending: Vec<ChunkCoordinate> = Vec::new();
        let mut i: usize = 0;
        while i < self.records.len()
            invariant
                0 <= i <= self.records.len(),
                distinct_coordinates(self.records@),
                keep == (|r: ChunkRecord| r.generation_state == GenerationState::NotStarted),
                lists_selected(pending@, self.records@, i as int, keep),
            decreases self.records.len() - i,
        {
            proof {
                lemma_list_next(pending@, self.records@, i as int, keep);
            }
            match self.records[i].generation_state {
                GenerationState::NotStarted => {
                    pending.push(self.records[i].coordinate);
                },
                _ => {},
            }
            i += 1;
        }
        proof {
            lemma_list_complete(pending@, self.records@, keep);
        }
        pending
    }
}

} // verus!
