//! What the wallet keeps for each of its notes: a bounded history of
//! witnesses, newest first, and the height up to which it was advanced.

use crate::hash::{FrHash, Uint256};
use crate::transaction::SaplingOutPoint;
use crate::tree::TreeFull;
use crate::witness::{advanced, SaplingWitness, WitnessView};
use std::collections::VecDeque;
use vstd::arithmetic::power2::pow2;
use vstd::prelude::*;

verus! {

/// How many generations of witnesses a note keeps: the depth up to which a
/// change of the chain can be undone.
pub const WITNESS_CACHE_SIZE: usize = 100;

/// The height of a note whose witnesses were never advanced.
pub const UNINITIALIZED_HEIGHT: i32 = -1;

/// Why the wallet could not follow the chain. Each of these means that the
/// wallet is out of step with the chain and has to scan it anew.
#[derive(Clone, Copy, Debug, PartialEq, Eq, Structural)]
pub enum WalletError {
    /// A note holds more witnesses than the wallet has history.
    WitnessCacheOverflow,
    /// A note was last advanced at a height other than the one just below.
    WitnessHeightOutOfOrder,
    /// The tree, or a witness, has no room for the leaves of the block.
    TreeFull,
    /// The wallet has no history left to undo a block with.
    RollbackTooDeep,
    /// Two witnesses of the wallet give different roots.
    WitnessRootMismatch,
}

/// The model of a note's record.
pub struct NoteView {
    pub ivk: Seq<u8>,
    pub witnesses: Seq<WitnessView>,
    pub height: int,
    pub nullifier: Option<Seq<u8>>,
}

/// The views of `ws`, in order.
pub open spec fn witness_views(ws: Seq<SaplingWitness>) -> Seq<WitnessView> {
    Seq::new(ws.len(), |i: int| ws[i]@)
}

/// Whether a note that is to be carried forward to `height` is in order.
pub open spec fn note_copy_check(n: NoteView, height: int, cache_size: nat) -> Result<
    (),
    WalletError,
> {
    if n.height < height {
        if n.witnesses.len() > cache_size {
            Err(WalletError::WitnessCacheOverflow)
        } else if n.height != UNINITIALIZED_HEIGHT && n.height != height - 1 {
            Err(WalletError::WitnessHeightOutOfOrder)
        } else {
            Ok(())
        }
    } else {
        Ok(())
    }
}

/// A note carried forward to `height`: its newest witness is duplicated, and
/// the oldest is dropped where the history would grow beyond its bound.
pub open spec fn copied(n: NoteView, height: int) -> NoteView {
    if n.height < height && n.witnesses.len() > 0 {
        let longer = seq![n.witnesses[0]] + n.witnesses;
        NoteView {
            witnesses: if longer.len() > WITNESS_CACHE_SIZE {
                longer.drop_last()
            } else {
                longer
            },
            ..n
        }
    } else {
        n
    }
}

/// Whether the newest witness of a note can take in `count` more leaves.
pub open spec fn has_room(n: NoteView, height: int, count: nat) -> bool {
    n.height < height && n.witnesses.len() > 0 ==> n.witnesses[0].leaves.len() + count <= pow2(
        n.witnesses[0].depth,
    )
}

/// Whether a note that is to take in one leaf at `height` is in order.
pub open spec fn note_append_check(n: NoteView, height: int, cache_size: nat) -> Result<
    (),
    WalletError,
> {
    if n.height < height && n.witnesses.len() > 0 {
        if n.witnesses.len() > cache_size {
            Err(WalletError::WitnessCacheOverflow)
        } else if !has_room(n, height, 1) {
            Err(WalletError::TreeFull)
        } else {
            Ok(())
        }
    } else {
        Ok(())
    }
}

/// A note after its newest witness has taken in the leaf `cm`.
pub open spec fn appended(n: NoteView, height: int, cm: Seq<u8>) -> NoteView {
    if n.height < height && n.witnesses.len() > 0 {
        NoteView { witnesses: n.witnesses.update(0, advanced(n.witnesses[0], seq![cm])), ..n }
    } else {
        n
    }
}

/// A note after `w` was made its only witness: what happens to the note of an
/// output when the block that holds that output is connected.
pub open spec fn witnessed(n: NoteView, height: int, w: WitnessView) -> NoteView {
    if n.height < height {
        NoteView { witnesses: seq![w], height: height - 1, ..n }
    } else {
        n
    }
}

/// Whether a note whose height is to be raised to `height` is in order.
pub open spec fn note_height_check(n: NoteView, height: int, cache_size: nat) -> Result<
    (),
    WalletError,
> {
    if n.height < height && n.witnesses.len() > cache_size {
        Err(WalletError::WitnessCacheOverflow)
    } else {
        Ok(())
    }
}

/// A note after its height was raised to `height`.
pub open spec fn heightened(n: NoteView, height: int) -> NoteView {
    if n.height < height {
        NoteView { height, ..n }
    } else {
        n
    }
}

/// Whether a note is in order from which the block at `height` is to be undone.
pub open spec fn note_decrement_check(n: NoteView, height: int, cache_size: nat) -> Result<
    (),
    WalletError,
> {
    if n.height <= height && n.height != UNINITIALIZED_HEIGHT {
        if n.witnesses.len() > cache_size {
            Err(WalletError::WitnessCacheOverflow)
        } else if n.height != height {
            Err(WalletError::WitnessHeightOutOfOrder)
        } else {
            Ok(())
        }
    } else {
        Ok(())
    }
}

/// A note after the block at `height` was undone: a note that was advanced at
/// that height loses its newest witness and is one block lower.
pub open spec fn decremented(n: NoteView, height: int) -> NoteView {
    if n.height == height && n.height != UNINITIALIZED_HEIGHT {
        NoteView {
            witnesses: if n.witnesses.len() > 0 {
                n.witnesses.drop_first()
            } else {
                n.witnesses
            },
            height: height - 1,
            ..n
        }
    } else {
        n
    }
}

/// The record of one note of the wallet.
pub struct SaplingNoteData {
    pub ivk: [u8; 32],
    pub witnesses: VecDeque<SaplingWitness>,
    pub witness_height: i32,
    pub nullifier: Option<Uint256>,
}

impl View for SaplingNoteData {
    type V = NoteView;

    open spec fn view(&self) -> NoteView {
        NoteView {
            ivk: self.ivk@,
            witnesses: witness_views(self.witnesses@),
            height: self.witness_height as int,
            nullifier: match self.nullifier {
                Some(nf) => Some(nf@),
                None => None,
            },
        }
    }
}

impl SaplingNoteData {
    /// Every witness of the note is well formed, and the height is one that a
    /// note can have.
    pub open spec fn wf(&self) -> bool {
        &&& self.witness_height >= UNINITIALIZED_HEIGHT
        &&& forall|i: int| 0 <= i < self.witnesses@.len() ==> (#[trigger] self.witnesses@[i]).wf()
    }

    /// The record of a note that was just found: no witness yet, and no height.
    pub fn new(ivk: [u8; 32]) -> (out: SaplingNoteData)
        ensures
            out.wf(),
            out@ == (NoteView {
                ivk: ivk@,
                witnesses: Seq::empty(),
                height: UNINITIALIZED_HEIGHT as int,
                nullifier: None,
            }),
    {
        let out: SaplingNoteData = SaplingNoteData {
            ivk,
            witnesses: VecDeque::new(),
            witness_height: UNINITIALIZED_HEIGHT,
            nullifier: None,
        };
        assert(out@.witnesses =~= Seq::<WitnessView>::empty());
        out
    }

    /// Makes `witness` the newest witness of the note.
    pub fn push_front(&mut self, witness: SaplingWitness)
        requires
            old(self).wf(),
            witness.wf(),
        ensures
            final(self).wf(),
            final(self)@ == (NoteView {
                witnesses: seq![witness@] + old(self)@.witnesses,
                ..old(self)@
            }),
    {
        self.witnesses.push_front(witness);
        assert(self@.witnesses =~= seq![witness@] + old(self)@.witnesses);
    }

    /// The newest witness of the note, if it has one.
    pub fn front(&self) -> (out: Option<&SaplingWitness>)
        ensures
            out.is_some() == (self@.witnesses.len() > 0),
            out matches Some(w) ==> *w == self.witnesses@[0] && w@ == self@.witnesses[0],
    {
        if self.witnesses.len() > 0 {
            Some(&self.witnesses[0])
        } else {
            None
        }
    }

    /// Drops the oldest witness of the note, if it has one.
    pub fn pop_back(&mut self)
        requires
            old(self).wf(),
        ensures
            final(self).wf(),
            final(self)@ == (NoteView {
                witnesses: if old(self)@.witnesses.len() > 0 {
                    old(self)@.witnesses.drop_last()
                } else {
                    old(self)@.witnesses
                },
                ..old(self)@
            }),
    {
        let dropped: Option<SaplingWitness> = self.witnesses.pop_back();
        proof {
            if old(self)@.witnesses.len() > 0 {
                assert(self@.witnesses =~= old(self)@.witnesses.drop_last());
            } else {
                assert(self@.witnesses =~= old(self)@.witnesses);
            }
        }
    }

    /// Whether the note is in order to be carried forward to `height`.
    pub fn copy_check(&self, height: i32, cache_size: usize) -> (out: Result<(), WalletError>)
        ensures
            out == note_copy_check(self@, height as int, cache_size as nat),
    {
        if self.witness_height < height {
            if self.witnesses.len() > cache_size {
                Err(WalletError::WitnessCacheOverflow)
            } else if self.witness_height != UNINITIALIZED_HEIGHT && self.witness_height != height
                - 1 {
                Err(WalletError::WitnessHeightOutOfOrder)
            } else {
                Ok(())
            }
        } else {
            Ok(())
        }
    }

    /// Carries the note forward to `height`.
    pub fn copy_previous(&mut self, height: i32)
        requires
            old(self).wf(),
        ensures
            final(self).wf(),
            final(self)@ == copied(old(self)@, height as int),
    {
        if self.witness_height < height && self.witnesses.len() > 0 {
            let newest: SaplingWitness = self.witnesses[0].clone();
            self.witnesses.push_front(newest);
            if self.witnesses.len() > WITNESS_CACHE_SIZE {
                let dropped: Option<SaplingWitness> = self.witnesses.pop_back();
            }
            proof {
                let longer: Seq<WitnessView> = seq![old(self)@.witnesses[0]] + old(self)@.witnesses;
                if longer.len() > WITNESS_CACHE_SIZE {
                    assert(self@.witnesses =~= longer.drop_last());
                } else {
                    assert(self@.witnesses =~= longer);
                }
            }
        }
    }

    /// Whether the note is in order to take in one leaf at `height`.
    pub fn append_check(&self, height: i32, cache_size: usize) -> (out: Result<(), WalletError>)
        requires
            self.wf(),
        ensures
            out == note_append_check(self@, height as int, cache_size as nat),
    {
        if self.witness_height < height && self.witnesses.len() > 0 {
            if self.witnesses.len() > cache_size {
                Err(WalletError::WitnessCacheOverflow)
            } else if self.witnesses[0].is_full() {
                Err(WalletError::TreeFull)
            } else {
                Ok(())
            }
        } else {
            Ok(())
        }
    }

    /// Lets the newest witness of the note take in the leaf `cm`.
    pub fn append_commitment(&mut self, height: i32, cm: FrHash)
        requires
            old(self).wf(),
            has_room(old(self)@, height as int, 1),
        ensures
            final(self).wf(),
            final(self)@ == appended(old(self)@, height as int, cm@),
    {
        if self.witness_height < height && self.witnesses.len() > 0 {
            let mut newest: SaplingWitness = self.witnesses.pop_front().unwrap();
            let taken: Result<(), TreeFull> = newest.append(cm);
            self.witnesses.push_front(newest);
            proof {
                assert(self@.witnesses =~= old(self)@.witnesses.update(
                    0,
                    advanced(old(self)@.witnesses[0], seq![cm@]),
                ));
            }
        }
    }

    /// Makes `witness` the only witness of the note, one block below `height`.
    pub fn witness(&mut self, height: i32, witness: SaplingWitness)
        requires
            old(self).wf(),
            witness.wf(),
        ensures
            final(self).wf(),
            final(self)@ == witnessed(old(self)@, height as int, witness@),
    {
        if self.witness_height < height {
            if self.witnesses.len() > 0 {
                self.witnesses.clear();
            }
            self.witnesses.push_front(witness);
            self.witness_height = height - 1;
            assert(self@.witnesses =~= seq![witness@]);
        }
    }

    /// Raises the height of the note to `height`.
    pub fn update_height(&mut self, height: i32)
        requires
            old(self).wf(),
        ensures
            final(self).wf(),
            final(self)@ == heightened(old(self)@, height as int),
    {
        if self.witness_height < height {
            self.witness_height = height;
        }
    }

    /// Whether the note is in order for the block at `height` to be undone.
    pub fn decrement_check(&self, height: i32, cache_size: usize) -> (out: Result<(), WalletError>)
        ensures
            out == note_decrement_check(self@, height as int, cache_size as nat),
    {
        if self.witness_height <= height && self.witness_height != UNINITIALIZED_HEIGHT {
            if self.witnesses.len() > cache_size {
                Err(WalletError::WitnessCacheOverflow)
            } else if self.witness_height != height {
                Err(WalletError::WitnessHeightOutOfOrder)
            } else {
                Ok(())
            }
        } else {
            Ok(())
        }
    }

    /// Undoes the block at `height` for the note.
    pub fn decrement(&mut self, height: i32)
        requires
            old(self).wf(),
        ensures
            final(self).wf(),
            final(self)@ == decremented(old(self)@, height as int),
    {
        if self.witness_height == height && self.witness_height != UNINITIALIZED_HEIGHT {
            let dropped: Option<SaplingWitness> = self.witnesses.pop_front();
            self.witness_height = height - 1;
            proof {
                if old(self)@.witnesses.len() > 0 {
                    assert(self@.witnesses =~= old(self)@.witnesses.drop_first());
                } else {
                    assert(self@.witnesses =~= old(self)@.witnesses);
                }
            }
        }
    }
}

/// The notes of one transaction, by the output that each of them came from.
pub struct NoteDataMap {
    pub keys: Vec<SaplingOutPoint>,
    pub values: Vec<SaplingNoteData>,
}

/// The model of a reference to an output: the transaction and the index.
pub struct OutPointView {
    pub hash: Seq<u8>,
    pub n: nat,
}

impl View for SaplingOutPoint {
    type V = OutPointView;

    open spec fn view(&self) -> OutPointView {
        OutPointView { hash: self.hash@, n: self.n as nat }
    }
}

/// The models of `notes`, in order.
pub open spec fn note_views(notes: Seq<SaplingNoteData>) -> Seq<NoteView> {
    Seq::new(notes.len(), |i: int| notes[i]@)
}

/// The first error that `check` finds among `notes`, in order.
pub open spec fn first_error(
    notes: Seq<NoteView>,
    check: spec_fn(NoteView) -> Result<(), WalletError>,
) -> Result<(), WalletError>
    decreases notes.len(),
{
    if notes.len() == 0 {
        Ok(())
    } else {
        match first_error(notes.drop_last(), check) {
            Err(e) => Err(e),
            Ok(_) => check(notes.last()),
        }
    }
}

/// Where no error is found, every note passes the check.
pub proof fn lemma_first_error_ok(
    notes: Seq<NoteView>,
    check: spec_fn(NoteView) -> Result<(), WalletError>,
)
    requires
        first_error(notes, check).is_ok(),
    ensures
        forall|i: int| 0 <= i < notes.len() ==> (#[trigger] check(notes[i])).is_ok(),
    decreases notes.len(),
{
    if notes.len() > 0 {
        lemma_first_error_ok(notes.drop_last(), check);
        assert forall|i: int| 0 <= i < notes.len() implies (#[trigger] check(notes[i])).is_ok() by {
            if i < notes.len() - 1 {
                assert(notes.drop_last()[i] == notes[i]);
            }
        }
    }
}

/// Where every note passes the check, no error is found.
pub proof fn lemma_first_error_none(
    notes: Seq<NoteView>,
    check: spec_fn(NoteView) -> Result<(), WalletError>,
)
    requires
        forall|i: int| 0 <= i < notes.len() ==> (#[trigger] check(notes[i])).is_ok(),
    ensures
        first_error(notes, check).is_ok(),
    decreases notes.len(),
{
    if notes.len() > 0 {
        assert forall|i: int| 0 <= i < notes.len() - 1 implies (#[trigger] check(
            notes.drop_last()[i],
        )).is_ok() by {
            assert(notes.drop_last()[i] == notes[i]);
        }
        lemma_first_error_none(notes.drop_last(), check);
        assert(check(notes[notes.len() - 1]).is_ok());
        assert(notes.last() == notes[notes.len() - 1]);
    }
}

impl NoteDataMap {
    /// One note per key, no key twice, and every note well formed.
    pub open spec fn wf(&self) -> bool {
        &&& self.keys@.len() == self.values@.len()
        &&& forall|i: int, j: int|
            0 <= i < self.keys@.len() && 0 <= j < self.keys@.len() && i != j ==> (
            #[trigger] self.keys@[i])@ != (#[trigger] self.keys@[j])@
        &&& forall|i: int| 0 <= i < self.values@.len() ==> (#[trigger] self.values@[i]).wf()
    }

    /// The models of the notes, in the order of the keys.
    pub open spec fn notes(&self) -> Seq<NoteView> {
        note_views(self.values@)
    }

    /// Whether `key` stands at index `i`.
    pub open spec fn key_at(&self, key: OutPointView, i: int) -> bool {
        0 <= i < self.keys@.len() && self.keys@[i]@ == key
    }

    /// Whether the map holds a note for `key`.
    pub open spec fn contains(&self, key: OutPointView) -> bool {
        exists|i: int| self.key_at(key, i)
    }

    /// A map without notes.
    pub fn new() -> (out: NoteDataMap)
        ensures
            out.wf(),
            out.keys@.len() == 0,
    {
        NoteDataMap { keys: Vec::new(), values: Vec::new() }
    }

    /// The number of notes.
    pub fn len(&self) -> (out: usize)
        ensures
            out == self.keys@.len(),
    {
        self.keys.len()
    }

    /// The index of `key`, if the map holds a note for it.
    pub fn position(&self, key: &SaplingOutPoint) -> (out: Option<usize>)
        ensures
            out.is_some() == self.contains(key@),
            out matches Some(i) ==> self.key_at(key@, i as int),
    {
        let mut i: usize = 0;
        while i < self.keys.len()
            invariant
                i <= self.keys@.len(),
                forall|j: int| 0 <= j < i ==> !self.key_at(key@, j),
            decreases self.keys@.len() - i,
        {
            if self.keys[i] == *key {
                assert(self.key_at(key@, i as int));
                return Some(i);
            }
            i = i + 1;
        }
        None
    }

    /// Whether the map holds a note for `key`.
    pub fn contains_key(&self, key: &SaplingOutPoint) -> (out: bool)
        ensures
            out == self.contains(key@),
    {
        self.position(key).is_some()
    }

    /// The note for `key`, if the map holds one.
    pub fn get(&self, key: &SaplingOutPoint) -> (out: Option<&SaplingNoteData>)
        requires
            self.wf(),
        ensures
            out.is_some() == self.contains(key@),
            out matches Some(nd) ==> exists|i: int|
                self.key_at(key@, i) && *nd == #[trigger] self.values@[i],
    {
        match self.position(key) {
            Some(i) => Some(&self.values[i]),
            None => None,
        }
    }

    /// Sets the note for `key`, whether or not the map held one.
    pub fn insert(&mut self, key: SaplingOutPoint, note: SaplingNoteData)
        requires
            old(self).wf(),
            note.wf(),
        ensures
            final(self).wf(),
            final(self).contains(key@),
            final(self).as_map() == old(self).as_map().insert(key@, note@),
            match old(self).position_spec(key@) {
                Some(i) => final(self).keys@ == old(self).keys@ && final(self).values@ == old(
                    self,
                ).values@.update(i, note),
                None => final(self).keys@ == old(self).keys@.push(key) && final(self).values@
                    == old(self).values@.push(note),
            },
    {
        match self.position(&key) {
            Some(i) => {
                self.values.set(i, note);
                assert(self.key_at(key@, i as int));
                assert(old(self).key_at(key@, old(self).position_spec(key@).unwrap()));
                proof {
                    assert forall|k: OutPointView| self.contains(k) == old(self).contains(k) by {
                        if self.contains(k) {
                            let j: int = choose|j: int| self.key_at(k, j);
                            assert(old(self).key_at(k, j));
                        }
                        if old(self).contains(k) {
                            let j: int = choose|j: int| old(self).key_at(k, j);
                            assert(self.key_at(k, j));
                        }
                    }
                    assert forall|k: OutPointView| self.contains(k) implies #[trigger] self.as_map()[k]
                        == old(self).as_map().insert(key@, note@)[k] by {
                        let j: int = choose|j: int| self.key_at(k, j);
                        assert(self.key_at(k, j));
                        let j2: int = choose|j: int| old(self).key_at(k, j);
                        assert(old(self).key_at(k, j2));
                    }
                    assert(self.as_map() =~= old(self).as_map().insert(key@, note@));
                }
            },
            None => {
                self.keys.push(key);
                self.values.push(note);
                assert(self.key_at(key@, self.keys@.len() - 1));
                assert forall|i: int, j: int|
                    0 <= i < self.keys@.len() && 0 <= j < self.keys@.len() && i != j implies (
                #[trigger] self.keys@[i])@ != (#[trigger] self.keys@[j])@ by {
                    if i == self.keys@.len() - 1 {
                        assert(!old(self).key_at(key@, j));
                    }
                    if j == self.keys@.len() - 1 {
                        assert(!old(self).key_at(key@, i));
                    }
                }
                proof {
                    let n: int = old(self).keys@.len() as int;
                    assert forall|k: OutPointView|
                        self.contains(k) == (k == key@ || old(self).contains(k)) by {
                        if old(self).contains(k) {
                            let j: int = choose|j: int| old(self).key_at(k, j);
                            assert(self.key_at(k, j));
                        }
                        if self.contains(k) {
                            let j: int = choose|j: int| self.key_at(k, j);
                            if j < n {
                                assert(old(self).key_at(k, j));
                            }
                        }
                    }
                    assert forall|k: OutPointView| self.contains(k) implies #[trigger] self.as_map()[k]
                        == old(self).as_map().insert(key@, note@)[k] by {
                        let j: int = choose|j: int| self.key_at(k, j);
                        assert(self.key_at(k, j));
                        if j < n {
                            assert(old(self).key_at(k, j));
                            let j2: int = choose|j: int| old(self).key_at(k, j);
                            assert(old(self).key_at(k, j2));
                        } else {
                            if k != key@ {
                                assert(self.keys@[j]@ == key@);
                            }
                        }
                    }
                    assert(self.as_map() =~= old(self).as_map().insert(key@, note@));
                }
            },
        }
    }

    /// Whether the notes are in order to be carried forward to `height`.
    pub fn copy_check(&self, height: i32, cache_size: usize) -> (out: Result<(), WalletError>)
        ensures
            out == copy_check_all(self.notes(), height as int, cache_size as nat),
    {
        let ghost check = |n: NoteView| note_copy_check(n, height as int, cache_size as nat);
        let mut i: usize = 0;
        assert(self.notes().take(0) =~= Seq::<NoteView>::empty());
        while i < self.values.len()
            invariant
                i <= self.values@.len(),
                check == |n: NoteView| note_copy_check(n, height as int, cache_size as nat),
                first_error(self.notes().take(i as int), check).is_ok(),
            decreases self.values@.len() - i,
        {
            let checked: Result<(), WalletError> = self.values[i].copy_check(height, cache_size);
            proof {
                let upto: Seq<NoteView> = self.notes().take(i + 1);
                assert(upto.drop_last() =~= self.notes().take(i as int));
                assert(upto.last() == self.values@[i as int]@);
                if checked.is_err() {
                    lemma_first_error_prefix(self.notes(), check, i + 1);
                }
            }
            if checked.is_err() {
                return checked;
            }
            i = i + 1;
        }
        assert(self.notes().take(i as int) =~= self.notes());
        Ok(())
    }

    /// Whether the notes are in order for the block at `height` to be undone.
    pub fn decrement_check(&self, height: i32, cache_size: usize) -> (out: Result<(), WalletError>)
        ensures
            out == decrement_check_all(self.notes(), height as int, cache_size as nat),
    {
        let ghost check = |n: NoteView| note_decrement_check(n, height as int, cache_size as nat);
        let mut i: usize = 0;
        assert(self.notes().take(0) =~= Seq::<NoteView>::empty());
        while i < self.values.len()
            invariant
                i <= self.values@.len(),
                check == |n: NoteView| note_decrement_check(n, height as int, cache_size as nat),
                first_error(self.notes().take(i as int), check).is_ok(),
            decreases self.values@.len() - i,
        {
            let checked: Result<(), WalletError> = self.values[i].decrement_check(
                height,
                cache_size,
            );
            proof {
                let upto: Seq<NoteView> = self.notes().take(i + 1);
                assert(upto.drop_last() =~= self.notes().take(i as int));
                assert(upto.last() == self.values@[i as int]@);
                if checked.is_err() {
                    lemma_first_error_prefix(self.notes(), check, i + 1);
                }
            }
            if checked.is_err() {
                return checked;
            }
            i = i + 1;
        }
        assert(self.notes().take(i as int) =~= self.notes());
        Ok(())
    }

    /// Whether the newest witness of every note that is being advanced to
    /// `height` can take in `count` more leaves.
    pub fn room_check(&self, height: i32, count: u64) -> (out: bool)
        requires
            self.wf(),
        ensures
            out == forall|i: int|
                0 <= i < self.notes().len() ==> has_room(
                    #[trigger] self.notes()[i],
                    height as int,
                    count as nat,
                ),
    {
        let mut i: usize = 0;
        while i < self.values.len()
            invariant
                self.wf(),
                i <= self.values@.len(),
                forall|j: int|
                    0 <= j < i ==> has_room(
                        #[trigger] self.notes()[j],
                        height as int,
                        count as nat,
                    ),
            decreases self.values@.len() - i,
        {
            if self.values[i].witness_height < height && self.values[i].witnesses.len() > 0 {
                if self.values[i].witnesses[0].remaining() < count {
                    assert(!has_room(self.notes()[i as int], height as int, count as nat));
                    return false;
                }
            }
            assert(has_room(self.notes()[i as int], height as int, count as nat));
            i = i + 1;
        }
        true
    }

    /// The index of `key`, if the map holds a note for it.
    pub open spec fn position_spec(&self, key: OutPointView) -> Option<int> {
        if self.contains(key) {
            Some(choose|i: int| self.key_at(key, i))
        } else {
            None
        }
    }

    /// The notes by their keys.
    pub open spec fn as_map(&self) -> Map<OutPointView, NoteView> {
        Map::new(
            |k: OutPointView| self.contains(k),
            |k: OutPointView| self.notes()[choose|i: int| self.key_at(k, i)],
        )
    }

    /// The key at index `i` has the note at index `i`.
    pub proof fn lemma_entry(&self, i: int)
        requires
            self.wf(),
            0 <= i < self.keys@.len(),
        ensures
            self.contains(self.keys@[i]@),
            self.as_map()[self.keys@[i]@] == self.notes()[i],
            self.position_spec(self.keys@[i]@) == Some(i),
    {
        assert(self.key_at(self.keys@[i]@, i));
    }
}

/// Whether the notes of a map are in order to be carried forward to `height`.
pub open spec fn copy_check_all(notes: Seq<NoteView>, height: int, cache_size: nat) -> Result<
    (),
    WalletError,
> {
    first_error(notes, |n: NoteView| note_copy_check(n, height, cache_size))
}

/// Whether the notes of a map are in order to take in one leaf at `height`.
pub open spec fn append_check_all(notes: Seq<NoteView>, height: int, cache_size: nat) -> Result<
    (),
    WalletError,
> {
    first_error(notes, |n: NoteView| note_append_check(n, height, cache_size))
}

/// Whether the notes of a map are in order for their height to be raised.
pub open spec fn height_check_all(notes: Seq<NoteView>, height: int, cache_size: nat) -> Result<
    (),
    WalletError,
> {
    first_error(notes, |n: NoteView| note_height_check(n, height, cache_size))
}

/// Whether the notes of a map are in order for the block at `height` to be
/// undone.
pub open spec fn decrement_check_all(notes: Seq<NoteView>, height: int, cache_size: nat) -> Result<
    (),
    WalletError,
> {
    first_error(notes, |n: NoteView| note_decrement_check(n, height, cache_size))
}

/// Carries every note of the map forward to `index_height`: the newest witness
/// of a note that was advanced up to the block below is duplicated, and the
/// oldest dropped where the history would grow beyond its bound. Where a note
/// is out of order, the error is returned and no note is changed.
pub fn copy_previous_witnesses(
    note_data_map: &mut NoteDataMap,
    index_height: i32,
    witness_cache_size: usize,
) -> (out: Result<(), WalletError>)
    requires
        old(note_data_map).wf(),
    ensures
        final(note_data_map).wf(),
        final(note_data_map).keys@ == old(note_data_map).keys@,
        out == copy_check_all(
            old(note_data_map).notes(),
            index_height as int,
            witness_cache_size as nat,
        ),
        out.is_err() ==> final(note_data_map).notes() == old(note_data_map).notes(),
        out.is_ok() ==> final(note_data_map).notes().len() == old(note_data_map).notes().len()
            && forall|i: int|
            0 <= i < old(note_data_map).notes().len() ==> #[trigger] final(note_data_map).notes()[i]
                == copied(old(note_data_map).notes()[i], index_height as int),
{
    let checked: Result<(), WalletError> = note_data_map.copy_check(index_height, witness_cache_size);
    if checked.is_err() {
        return checked;
    }
    let mut i: usize = 0;
    while i < note_data_map.values.len()
        invariant
            note_data_map.wf(),
            note_data_map.keys@ == old(note_data_map).keys@,
            note_data_map.values@.len() == old(note_data_map).values@.len(),
            i <= note_data_map.values@.len(),
            forall|j: int|
                0 <= j < i ==> (#[trigger] note_data_map.values@[j])@ == copied(
                    old(note_data_map).values@[j]@,
                    index_height as int,
                ),
            forall|j: int|
                i <= j < note_data_map.values@.len() ==> #[trigger] note_data_map.values@[j] == old(
                    note_data_map,
                ).values@[j],
        decreases note_data_map.values@.len() - i,
    {
        note_data_map.values[i].copy_previous(index_height);
        i = i + 1;
    }
    Ok(())
}

/// An error among the first notes is the error among all of them.
pub proof fn lemma_first_error_prefix(
    notes: Seq<NoteView>,
    check: spec_fn(NoteView) -> Result<(), WalletError>,
    upto: int,
)
    requires
        0 <= upto <= notes.len(),
        first_error(notes.take(upto), check).is_err(),
    ensures
        first_error(notes, check) == first_error(notes.take(upto), check),
    decreases notes.len() - upto,
{
    if upto < notes.len() {
        let next: Seq<NoteView> = notes.take(upto + 1);
        assert(next.drop_last() =~= notes.take(upto));
        lemma_first_error_prefix(notes, check, upto + 1);
    } else {
        assert(notes.take(upto) =~= notes);
    }
}

/// Lets the newest witness of every note that is being advanced to
/// `index_height` take in the leaf `note_commitement`. Where a note is out of
/// order, or its witness has no room, the error is returned and no note is
/// changed.
pub fn append_note_commitement(
    note_data_map: &mut NoteDataMap,
    index_height: i32,
    witness_cache_size: usize,
    note_commitement: FrHash,
) -> (out: Result<(), WalletError>)
    requires
        old(note_data_map).wf(),
    ensures
        final(note_data_map).wf(),
        final(note_data_map).keys@ == old(note_data_map).keys@,
        out == append_check_all(
            old(note_data_map).notes(),
            index_height as int,
            witness_cache_size as nat,
        ),
        out.is_err() ==> final(note_data_map).notes() == old(note_data_map).notes(),
        out.is_ok() ==> final(note_data_map).notes().len() == old(note_data_map).notes().len()
            && forall|i: int|
            0 <= i < old(note_data_map).notes().len() ==> #[trigger] final(note_data_map).notes()[i]
                == appended(old(note_data_map).notes()[i], index_height as int, note_commitement@),
{
    let ghost check = |n: NoteView|
        note_append_check(n, index_height as int, witness_cache_size as nat);
    let mut i: usize = 0;
    assert(note_data_map.notes().take(0) =~= Seq::<NoteView>::empty());
    while i < note_data_map.values.len()
        invariant
            *note_data_map == *old(note_data_map),
            note_data_map.wf(),
            i <= note_data_map.values@.len(),
            check == |n: NoteView|
                note_append_check(n, index_height as int, witness_cache_size as nat),
            first_error(note_data_map.notes().take(i as int), check).is_ok(),
        decreases note_data_map.values@.len() - i,
    {
        let checked: Result<(), WalletError> = note_data_map.values[i].append_check(
            index_height,
            witness_cache_size,
        );
        proof {
            let upto: Seq<NoteView> = note_data_map.notes().take(i + 1);
            assert(upto.drop_last() =~= note_data_map.notes().take(i as int));
            assert(upto.last() == note_data_map.values@[i as int]@);
            if checked.is_err() {
                lemma_first_error_prefix(note_data_map.notes(), check, i + 1);
            }
        }
        if checked.is_err() {
            return checked;
        }
        i = i + 1;
    }
    proof {
        assert(note_data_map.notes().take(i as int) =~= note_data_map.notes());
        lemma_first_error_ok(note_data_map.notes(), check);
        assert forall|j: int| 0 <= j < old(note_data_map).notes().len() implies (
        #[trigger] note_append_check(
            old(note_data_map).notes()[j],
            index_height as int,
            witness_cache_size as nat,
        )).is_ok() by {
            assert(check(note_data_map.notes()[j]).is_ok());
        }
    }
    let mut i: usize = 0;
    while i < note_data_map.values.len()
        invariant
            note_data_map.wf(),
            note_data_map.keys@ == old(note_data_map).keys@,
            note_data_map.values@.len() == old(note_data_map).values@.len(),
            i <= note_data_map.values@.len(),
            forall|j: int|
                0 <= j < old(note_data_map).notes().len() ==> (#[trigger] note_append_check(
                    old(note_data_map).notes()[j],
                    index_height as int,
                    witness_cache_size as nat,
                )).is_ok(),
            forall|j: int|
                0 <= j < i ==> (#[trigger] note_data_map.values@[j])@ == appended(
                    old(note_data_map).values@[j]@,
                    index_height as int,
                    note_commitement@,
                ),
            forall|j: int|
                i <= j < note_data_map.values@.len() ==> #[trigger] note_data_map.values@[j] == old(
                    note_data_map,
                ).values@[j],
        decreases note_data_map.values@.len() - i,
    {
        proof {
            assert(note_append_check(
                old(note_data_map).notes()[i as int],
                index_height as int,
                witness_cache_size as nat,
            ).is_ok());
        }
        note_data_map.values[i].append_commitment(index_height, note_commitement);
        i = i + 1;
    }
    Ok(())
}

/// Where the map holds a note for `key` that is being advanced to
/// `index_height`, makes `witness` its only witness and sets its height to the
/// block below. Returns whether it did.
pub fn witness_note_if_mine(
    note_data_map: &mut NoteDataMap,
    index_height: i32,
    witness_cache_size: usize,
    note_commitement: FrHash,
    key: SaplingOutPoint,
    witness: SaplingWitness,
) -> (out: bool)
    requires
        old(note_data_map).wf(),
        witness.wf(),
    ensures
        final(note_data_map).wf(),
        final(note_data_map).keys@ == old(note_data_map).keys@,
        final(note_data_map).notes().len() == old(note_data_map).notes().len(),
        forall|i: int|
            0 <= i < old(note_data_map).notes().len() ==> #[trigger] final(note_data_map).notes()[i]
                == if old(note_data_map).keys@[i]@ == key@ {
                witnessed(old(note_data_map).notes()[i], index_height as int, witness@)
            } else {
                old(note_data_map).notes()[i]
            },
        out == exists|i: int|
            old(note_data_map).key_at(key@, i) && (#[trigger] old(note_data_map).notes()[i]).height
                < index_height,
{
    match note_data_map.position(&key) {
        Some(i) => {
            let mine: bool = note_data_map.values[i].witness_height < index_height;
            note_data_map.values[i].witness(index_height, witness);
            proof {
                assert(old(note_data_map).key_at(key@, i as int));
                assert(old(note_data_map).notes()[i as int].height == old(
                    note_data_map,
                ).values@[i as int].witness_height);
                assert forall|j: int| 0 <= j < old(note_data_map).notes().len() implies #[trigger] note_data_map.notes()[j]
                    == if old(note_data_map).keys@[j]@ == key@ {
                    witnessed(old(note_data_map).notes()[j], index_height as int, witness@)
                } else {
                    old(note_data_map).notes()[j]
                } by {
                    if j != i {
                        assert(old(note_data_map).keys@[j]@ != old(note_data_map).keys@[i as int]@);
                    }
                }
                if mine {
                    assert(old(note_data_map).key_at(key@, i as int) && old(
                        note_data_map,
                    ).notes()[i as int].height < index_height);
                } else {
                    assert forall|j: int| old(note_data_map).key_at(key@, j) implies !((
                    #[trigger] old(note_data_map).notes()[j]).height < index_height) by {
                        if j != i {
                            assert(old(note_data_map).keys@[j]@ != old(note_data_map).keys@[i as int]@);
                        }
                    }
                }
            }
            mine
        },
        None => {
            proof {
                assert forall|j: int| 0 <= j < old(note_data_map).notes().len() implies old(
                    note_data_map,
                ).keys@[j]@ != key@ by {
                    assert(!old(note_data_map).key_at(key@, j));
                }
            }
            false
        },
    }
}

/// Raises the height of every note that is being advanced to `index_height`
/// to that height. Where a note is out of order, the error is returned and no
/// note is changed.
pub fn update_witness_heights(
    note_data_map: &mut NoteDataMap,
    index_height: i32,
    witness_cache_size: usize,
) -> (out: Result<(), WalletError>)
    requires
        old(note_data_map).wf(),
    ensures
        final(note_data_map).wf(),
        final(note_data_map).keys@ == old(note_data_map).keys@,
        out == height_check_all(
            old(note_data_map).notes(),
            index_height as int,
            witness_cache_size as nat,
        ),
        out.is_err() ==> final(note_data_map).notes() == old(note_data_map).notes(),
        out.is_ok() ==> final(note_data_map).notes().len() == old(note_data_map).notes().len()
            && forall|i: int|
            0 <= i < old(note_data_map).notes().len() ==> #[trigger] final(note_data_map).notes()[i]
                == heightened(old(note_data_map).notes()[i], index_height as int),
{
    let ghost check = |n: NoteView|
        note_height_check(n, index_height as int, witness_cache_size as nat);
    let mut i: usize = 0;
    assert(note_data_map.notes().take(0) =~= Seq::<NoteView>::empty());
    while i < note_data_map.values.len()
        invariant
            *note_data_map == *old(note_data_map),
            note_data_map.wf(),
            i <= note_data_map.values@.len(),
            check == |n: NoteView|
                note_height_check(n, index_height as int, witness_cache_size as nat),
            first_error(note_data_map.notes().take(i as int), check).is_ok(),
        decreases note_data_map.values@.len() - i,
    {
        let over: bool = note_data_map.values[i].witness_height < index_height
            && note_data_map.values[i].witnesses.len() > witness_cache_size;
        proof {
            let upto: Seq<NoteView> = note_data_map.notes().take(i + 1);
            assert(upto.drop_last() =~= note_data_map.notes().take(i as int));
            assert(upto.last() == note_data_map.values@[i as int]@);
            if over {
                lemma_first_error_prefix(note_data_map.notes(), check, i + 1);
            }
        }
        if over {
            return Err(WalletError::WitnessCacheOverflow);
        }
        i = i + 1;
    }
    assert(note_data_map.notes().take(i as int) =~= note_data_map.notes());
    let mut i: usize = 0;
    while i < note_data_map.values.len()
        invariant
            note_data_map.wf(),
            note_data_map.keys@ == old(note_data_map).keys@,
            note_data_map.values@.len() == old(note_data_map).values@.len(),
            i <= note_data_map.values@.len(),
            forall|j: int|
                0 <= j < i ==> (#[trigger] note_data_map.values@[j])@ == heightened(
                    old(note_data_map).values@[j]@,
                    index_height as int,
                ),
            forall|j: int|
                i <= j < note_data_map.values@.len() ==> #[trigger] note_data_map.values@[j] == old(
                    note_data_map,
                ).values@[j],
        decreases note_data_map.values@.len() - i,
    {
        note_data_map.values[i].update_height(index_height);
        i = i + 1;
    }
    Ok(())
}

/// Undoes the block at `index_height` for every note of the map: a note that
/// was advanced at that height loses its newest witness and is one block
/// lower. Where a note is out of order, the error is returned and no note is
/// changed.
pub fn decrement_note_data(
    note_data_map: &mut NoteDataMap,
    index_height: i32,
    witness_cache_size: usize,
) -> (out: Result<(), WalletError>)
    requires
        old(note_data_map).wf(),
    ensures
        final(note_data_map).wf(),
        final(note_data_map).keys@ == old(note_data_map).keys@,
        out == decrement_check_all(
            old(note_data_map).notes(),
            index_height as int,
            witness_cache_size as nat,
        ),
        out.is_err() ==> final(note_data_map).notes() == old(note_data_map).notes(),
        out.is_ok() ==> final(note_data_map).notes().len() == old(note_data_map).notes().len()
            && forall|i: int|
            0 <= i < old(note_data_map).notes().len() ==> #[trigger] final(note_data_map).notes()[i]
                == decremented(old(note_data_map).notes()[i], index_height as int),
{
    let checked: Result<(), WalletError> = note_data_map.decrement_check(index_height, witness_cache_size);
    if checked.is_err() {
        return checked;
    }
    let mut i: usize = 0;
    while i < note_data_map.values.len()
        invariant
            note_data_map.wf(),
            note_data_map.keys@ == old(note_data_map).keys@,
            note_data_map.values@.len() == old(note_data_map).values@.len(),
            i <= note_data_map.values@.len(),
            forall|j: int|
                0 <= j < i ==> (#[trigger] note_data_map.values@[j])@ == decremented(
                    old(note_data_map).values@[j]@,
                    index_height as int,
                ),
            forall|j: int|
                i <= j < note_data_map.values@.len() ==> #[trigger] note_data_map.values@[j] == old(
                    note_data_map,
                ).values@[j],
        decreases note_data_map.values@.len() - i,
    {
        note_data_map.values[i].decrement(index_height);
        i = i + 1;
    }
    Ok(())
}

} // verus!
