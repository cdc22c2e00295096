//! The server's rules: identifiers, where the database lives, and the checks on the data an
//! administrator saves.
use vstd::prelude::*;
use crate::model::{Slot, ParticipantInput, ParticipantStatus, status_rank};
use crate::text::{chars_of, chars_eq};

verus! {

/// Most slots an event may have.
pub const MAX_EVENT_SLOTS: usize = 100;

/// Most participants an event may have.
pub const MAX_EVENT_PARTICIPANTS: usize = 1000;

/// The file holding the database.
pub fn db_path() -> (p: &'static str)
    ensures
        p@ == "db.json"@,
{
    "db.json"
}

/// The lowercase hexadecimal digit of `v` (below 16).
pub open spec fn hex_digit(v: int) -> char {
    if v < 10 {
        (48 + v) as char
    } else {
        (87 + v) as char
    }
}

/// Each byte as two lowercase hexadecimal digits.
pub open spec fn hex_of(bytes: Seq<u8>) -> Seq<char>
    decreases bytes.len(),
{
    if bytes.len() == 0 {
        Seq::empty()
    } else {
        hex_of(bytes.drop_last()) + seq![hex_digit(bytes.last() as int / 16), hex_digit(bytes.last() as int % 16)]
    }
}

proof fn lemma_hex_len(bytes: Seq<u8>)
    ensures
        hex_of(bytes).len() == 2 * bytes.len(),
    decreases bytes.len(),
{
    if bytes.len() > 0 {
        lemma_hex_len(bytes.drop_last());
    }
}

/// `rand::random::<[u8; 20]>()`: twenty random bytes. Only their number is stated; the bytes
/// are left to chance.
#[verifier::external_body]
fn random_bytes() -> (b: Vec<u8>)
    ensures
        b.len() == 20,
{
    rand::random::<[u8; 20]>().to_vec()
}

/// `hex::encode`: each byte as two lowercase hexadecimal digits.
#[verifier::external_body]
fn hex_encode(bytes: &[u8]) -> (s: String)
    ensures
        s@ == hex_of(bytes@),
{
    hex::encode(bytes)
}

/// A fresh random identifier: 20 random bytes in lowercase hexadecimal.
pub fn gen_id() -> (id: String)
    ensures
        id@.len() == 40,
        exists|b: Seq<u8>| b.len() == 20 && id@ == hex_of(b),
{
    let bytes = random_bytes();
    let id = hex_encode(bytes.as_slice());
    proof {
        lemma_hex_len(bytes@);
    }
    id
}

/// Why saved event data is refused.
#[derive(Debug, Clone, Copy, PartialEq, Eq, Structural)]
pub enum DataError {
    TooManySlots,
    TooManyParticipants,
    MinAboveMax,
    CountOutOfRange,
    WishLength,
}

/// The message answered for a refusal.
pub open spec fn data_error_text(e: DataError) -> Seq<char> {
    match e {
        DataError::TooManySlots => "too many slots (max 100)"@,
        DataError::TooManyParticipants => "too many participants (max 1000)"@,
        DataError::MinAboveMax => "vmin > vmax"@,
        DataError::CountOutOfRange => "participant count not in range [sum_vmin, sum_vmax]"@,
        DataError::WishLength => "wish length != slots length"@,
    }
}

impl DataError {
    pub fn message(self) -> (m: &'static str)
        ensures
            m@ == data_error_text(self),
    {
        match self {
            DataError::TooManySlots => "too many slots (max 100)",
            DataError::TooManyParticipants => "too many participants (max 1000)",
            DataError::MinAboveMax => "vmin > vmax",
            DataError::CountOutOfRange => "participant count not in range [sum_vmin, sum_vmax]",
            DataError::WishLength => "wish length != slots length",
        }
    }
}

/// Wrapping sums of the slots' minima and maxima.
pub open spec fn quota_sums(slots: Seq<Slot>) -> (u32, u32)
    decreases slots.len(),
{
    if slots.len() == 0 {
        (0, 0)
    } else {
        let (a, b) = quota_sums(slots.drop_last());
        (
            vstd::wrapping::u32_specs::wrapping_add(a, slots.last().vmin),
            vstd::wrapping::u32_specs::wrapping_add(b, slots.last().vmax),
        )
    }
}

/// The first problem with saved slots and participants, checked in order: too many slots,
/// too many participants, a slot whose minimum exceeds its maximum, a participant count
/// outside the sums of minima and maxima, a wish without one value per slot.
pub open spec fn data_problem(slots: Seq<Slot>, ps: Seq<ParticipantInput>) -> Option<DataError> {
    let (sum_min, sum_max) = quota_sums(slots);
    if slots.len() > MAX_EVENT_SLOTS {
        Some(DataError::TooManySlots)
    } else if ps.len() > MAX_EVENT_PARTICIPANTS {
        Some(DataError::TooManyParticipants)
    } else if exists|i: int| 0 <= i < slots.len() && #[trigger] slots[i].vmin > slots[i].vmax {
        Some(DataError::MinAboveMax)
    } else if ps.len() > sum_max || ps.len() < sum_min {
        Some(DataError::CountOutOfRange)
    } else if exists|i: int| 0 <= i < ps.len() && #[trigger] ps[i].wish@.len() != slots.len() {
        Some(DataError::WishLength)
    } else {
        None
    }
}

/// Checks the slots and participants an administrator saves; the first problem found, if any.
pub fn check_event_data(slots: &[Slot], participants: &[ParticipantInput]) -> (r: Result<(), DataError>)
    ensures
        match r {
            Ok(()) => data_problem(slots@, participants@) is None,
            Err(e) => data_problem(slots@, participants@) == Some(e),
        },
{
    if slots.len() > MAX_EVENT_SLOTS {
        return Err(DataError::TooManySlots);
    }
    if participants.len() > MAX_EVENT_PARTICIPANTS {
        return Err(DataError::TooManyParticipants);
    }
    let mut sum_min: u32 = 0;
    let mut sum_max: u32 = 0;
    let mut i: usize = 0;
    while i < slots.len()
        invariant
            i <= slots.len(),
            slots.len() <= MAX_EVENT_SLOTS,
            participants.len() <= MAX_EVENT_PARTICIPANTS,
            (sum_min, sum_max) == quota_sums(slots@.take(i as int)),
            forall|k: int| 0 <= k < i ==> slots@[k].vmin <= slots@[k].vmax,
        decreases slots.len() - i,
    {
        if slots[i].vmin > slots[i].vmax {
            assert(slots@[i as int].vmin > slots@[i as int].vmax);
            return Err(DataError::MinAboveMax);
        }
        assert(slots@.take(i + 1).drop_last() =~= slots@.take(i as int));
        sum_min = sum_min.wrapping_add(slots[i].vmin);
        sum_max = sum_max.wrapping_add(slots[i].vmax);
        i = i + 1;
    }
    assert(slots@.take(slots.len() as int) =~= slots@);
    let n = participants.len() as u32;
    if n > sum_max || n < sum_min {
        return Err(DataError::CountOutOfRange);
    }
    let mut k: usize = 0;
    while k < participants.len()
        invariant
            k <= participants.len(),
            slots.len() <= MAX_EVENT_SLOTS,
            participants.len() <= MAX_EVENT_PARTICIPANTS,
            forall|q: int| 0 <= q < slots.len() ==> slots@[q].vmin <= slots@[q].vmax,
            (sum_min, sum_max) == quota_sums(slots@),
            !(participants.len() > sum_max || participants.len() < sum_min),
            forall|q: int| 0 <= q < k ==> participants@[q].wish@.len() == slots.len(),
        decreases participants.len() - k,
    {
        if participants[k].wish.len() != slots.len() {
            assert(participants@[k as int].wish@.len() != slots.len());
            return Err(DataError::WishLength);
        }
        k = k + 1;
    }
    Ok(())
}

/// Whether the slots changed: another number of slots, or a slot renamed.
pub open spec fn slots_differ(old_slots: Seq<Slot>, new_slots: Seq<Slot>) -> bool {
    old_slots.len() != new_slots.len() || exists|i: int|
        0 <= i < old_slots.len() && #[trigger] old_slots[i].name@ != new_slots[i].name@
}

/// Whether saving `new_slots` over `old_slots` changes the slots.
pub fn slots_changed(old_slots: &[Slot], new_slots: &[Slot]) -> (b: bool)
    ensures
        b == slots_differ(old_slots@, new_slots@),
{
    if old_slots.len() != new_slots.len() {
        return true;
    }
    let mut i: usize = 0;
    while i < old_slots.len()
        invariant
            i <= old_slots.len(),
            old_slots.len() == new_slots.len(),
            forall|k: int| 0 <= k < i ==> old_slots@[k].name@ == new_slots@[k].name@,
        decreases old_slots.len() - i,
    {
        let a = chars_of(old_slots[i].name.as_str());
        let b = chars_of(new_slots[i].name.as_str());
        if !chars_eq(a.as_slice(), b.as_slice()) {
            return true;
        }
        i = i + 1;
    }
    false
}

/// The status of a kept participant after saving: one already mailed (rank above 10) must be
/// mailed again when the slots changed.
pub open spec fn status_after_save(s: ParticipantStatus, changed: bool) -> ParticipantStatus {
    if changed && status_rank(s) > 10 {
        ParticipantStatus::UpdatePending
    } else {
        s
    }
}

pub fn status_after_update(status: ParticipantStatus, slots_changed: bool) -> (r: ParticipantStatus)
    ensures
        r == status_after_save(status, slots_changed),
{
    if slots_changed && status.as_i32() > 10 {
        ParticipantStatus::UpdatePending
    } else {
        status
    }
}

} // verus!
