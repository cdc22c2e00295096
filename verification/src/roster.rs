//! An event's participants in the database: saving them from the administrator's data (kept
//! participants get their new wishes, new mails become new participants, and those no longer
//! listed leave), their wishes, whom a batch of mails goes to, new events, and the event's
//! participants sorted by mail.
use vstd::prelude::*;
use crate::model::{
    Participant, ParticipantInput, ParticipantStatus, Slot, Event, EmailTemplates, CreateEventRequest, WsMsg,
    status_needs_reminder,
};
use crate::server::{DataError, MAX_EVENT_SLOTS, MAX_EVENT_PARTICIPANTS};
use crate::templates::{invite_text, update_text, reminder_text, results_text};
use crate::parse::slot_view;
use crate::server::{status_after_save, status_after_update, gen_id, hex_of};
use crate::model::status_rank;
use crate::fairness::{is_fair, is_fair_wish};
use crate::text::str_eq;
use crate::pipeline::copy_row;
use crate::permutation::is_permutation;
use crate::text::chars_of;

verus! {

/// A participant's identifier, mail, wish, event and status.
pub open spec fn member_view(p: Participant) -> (Seq<char>, Seq<char>, Seq<i32>, Seq<char>, ParticipantStatus) {
    (p.id@, p.mail@, p.wish@, p.event@, p.status)
}

pub open spec fn members_view(ps: Seq<Participant>) -> Seq<(Seq<char>, Seq<char>, Seq<i32>, Seq<char>, ParticipantStatus)> {
    ps.map_values(|p: Participant| member_view(p))
}

/// Position of the first participant of `event` with `mail`, or the length when there is none.
pub open spec fn find_member(
    ps: Seq<(Seq<char>, Seq<char>, Seq<i32>, Seq<char>, ParticipantStatus)>,
    mail: Seq<char>,
    event: Seq<char>,
) -> int
    decreases ps.len(),
{
    if ps.len() == 0 {
        0
    } else if ps[0].1 == mail && ps[0].3 == event {
        0
    } else {
        1 + find_member(ps.drop_first(), mail, event)
    }
}

proof fn lemma_find_member(
    ps: Seq<(Seq<char>, Seq<char>, Seq<i32>, Seq<char>, ParticipantStatus)>,
    mail: Seq<char>,
    event: Seq<char>,
    i: int,
)
    requires
        0 <= i <= ps.len(),
        forall|k: int| 0 <= k < i ==> !(ps[k].1 == mail && ps[k].3 == event),
        i == ps.len() || (ps[i].1 == mail && ps[i].3 == event),
    ensures
        find_member(ps, mail, event) == i,
    decreases i,
{
    if i > 0 {
        lemma_find_member(ps.drop_first(), mail, event, i - 1);
    }
}

/// One saved participant applied to the database's participants and to the event's new list
/// of identifiers: the first participant of the event with that mail gets the new wish (and
/// must be mailed again when the slots changed), or else a new participant is added with
/// the fresh identifier.
pub open spec fn save_step(
    st: (Seq<(Seq<char>, Seq<char>, Seq<i32>, Seq<char>, ParticipantStatus)>, Seq<Seq<char>>),
    input: (Seq<char>, Seq<i32>),
    event: Seq<char>,
    changed: bool,
    fresh: Seq<char>,
) -> (Seq<(Seq<char>, Seq<char>, Seq<i32>, Seq<char>, ParticipantStatus)>, Seq<Seq<char>>) {
    let ps = st.0;
    let k = find_member(ps, input.0, event);
    if k < ps.len() {
        (ps.update(k, (ps[k].0, ps[k].1, input.1, ps[k].3, status_after_save(ps[k].4, changed))), st.1.push(ps[k].0))
    } else {
        (ps.push((fresh, input.0, input.1, event, ParticipantStatus::New)), st.1.push(fresh))
    }
}

/// The first `k` saved participants applied in order.
pub open spec fn save_all(
    ps: Seq<(Seq<char>, Seq<char>, Seq<i32>, Seq<char>, ParticipantStatus)>,
    inputs: Seq<(Seq<char>, Seq<i32>)>,
    event: Seq<char>,
    changed: bool,
    fresh: Seq<Seq<char>>,
    k: int,
) -> (Seq<(Seq<char>, Seq<char>, Seq<i32>, Seq<char>, ParticipantStatus)>, Seq<Seq<char>>)
    decreases k,
{
    if k <= 0 {
        (ps, Seq::empty())
    } else {
        save_step(save_all(ps, inputs, event, changed, fresh, k - 1), inputs[k - 1], event, changed, fresh[k - 1])
    }
}

/// The participants that stay: those of other events, and those of `event` listed in `ids`.
pub open spec fn staying(
    ps: Seq<(Seq<char>, Seq<char>, Seq<i32>, Seq<char>, ParticipantStatus)>,
    event: Seq<char>,
    ids: Seq<Seq<char>>,
) -> Seq<(Seq<char>, Seq<char>, Seq<i32>, Seq<char>, ParticipantStatus)> {
    ps.filter(stays(event, ids))
}

/// Whether a participant stays: it is of another event, or listed in `ids`.
pub open spec fn stays(event: Seq<char>, ids: Seq<Seq<char>>) -> spec_fn(
    (Seq<char>, Seq<char>, Seq<i32>, Seq<char>, ParticipantStatus),
) -> bool {
    |p: (Seq<char>, Seq<char>, Seq<i32>, Seq<char>, ParticipantStatus)| p.3 != event || ids.contains(p.0)
}

/// The saved participants' mails and wishes.
pub open spec fn inputs_view(inputs: Seq<ParticipantInput>) -> Seq<(Seq<char>, Seq<i32>)> {
    inputs.map_values(|p: ParticipantInput| (p.mail@, p.wish@))
}

/// Position of the first participant of `event` with `mail`.
fn find_participant(ps: &Vec<Participant>, mail: &str, event: &str) -> (k: usize)
    ensures
        k == find_member(members_view(ps@), mail@, event@),
        k <= ps.len(),
{
    let mut i: usize = 0;
    while i < ps.len()
        invariant
            i <= ps.len(),
            forall|j: int| 0 <= j < i ==> !(ps@[j].mail@ == mail@ && ps@[j].event@ == event@),
        decreases ps.len() - i,
    {
        if str_eq(ps[i].mail.as_str(), mail) && str_eq(ps[i].event.as_str(), event) {
            proof {
                lemma_find_member(members_view(ps@), mail@, event@, i as int);
            }
            return i;
        }
        i = i + 1;
    }
    proof {
        lemma_find_member(members_view(ps@), mail@, event@, i as int);
    }
    i
}

/// Whether `id` is in `ids`.
fn listed(ids: &Vec<String>, id: &str) -> (b: bool)
    ensures
        b == ids@.map_values(|s: String| s@).contains(id@),
{
    let ghost v = ids@.map_values(|s: String| s@);
    let mut i: usize = 0;
    while i < ids.len()
        invariant
            i <= ids.len(),
            v == ids@.map_values(|s: String| s@),
            forall|j: int| 0 <= j < i ==> v[j] != id@,
        decreases ids.len() - i,
    {
        if str_eq(ids[i].as_str(), id) {
            assert(v[i as int] == id@);
            return true;
        }
        i = i + 1;
    }
    false
}

/// Saves an event's participants: applies the saved participants in order (a new one takes
/// the fresh identifier at its own position), then removes the event's participants that are
/// no longer listed. Returns the event's new list of participant identifiers.
pub fn save_participants(
    participants: &mut Vec<Participant>,
    event_id: &str,
    inputs: &[ParticipantInput],
    slots_changed: bool,
    fresh_ids: &[String],
) -> (ids: Vec<String>)
    requires
        fresh_ids.len() >= inputs.len(),
    ensures
        ({
            let r = save_all(
                members_view(old(participants)@),
                inputs_view(inputs@),
                event_id@,
                slots_changed,
                fresh_ids@.map_values(|s: String| s@),
                inputs.len() as int,
            );
            &&& ids@.map_values(|s: String| s@) == r.1
            &&& members_view(final(participants)@) == staying(r.0, event_id@, r.1)
        }),
{
    let ghost ps0 = members_view(participants@);
    let ghost ins = inputs_view(inputs@);
    let ghost fr = fresh_ids@.map_values(|s: String| s@);
    let mut ids: Vec<String> = Vec::new();
    let mut i: usize = 0;
    while i < inputs.len()
        invariant
            i <= inputs.len(),
            fresh_ids.len() >= inputs.len(),
            ins == inputs_view(inputs@),
            fr == fresh_ids@.map_values(|s: String| s@),
            (members_view(participants@), ids@.map_values(|s: String| s@)) == save_all(
                ps0,
                ins,
                event_id@,
                slots_changed,
                fr,
                i as int,
            ),
        decreases inputs.len() - i,
    {
        let input = &inputs[i];
        let ghost before = members_view(participants@);
        let ghost before_ids = ids@.map_values(|s: String| s@);
        let k = find_participant(participants, input.mail.as_str(), event_id);
        if k < participants.len() {
            let w = copy_row(&input.wish);
            let s = status_after_update(participants[k].status, slots_changed);
            let id = participants[k].id.clone();
            let ghost old_p = participants@[k as int];
            {
                let p = &mut participants[k];
                p.wish = w;
                p.status = s;
            }
            proof {
                assert(members_view(participants@) =~= before.update(
                    k as int,
                    (old_p.id@, old_p.mail@, input.wish@, old_p.event@, status_after_save(old_p.status, slots_changed)),
                ));
            }
            ids.push(id);
            assert(ids@.map_values(|s: String| s@) =~= before_ids.push(old_p.id@));
        } else {
            let fresh = fresh_ids[i].clone();
            let w = copy_row(&input.wish);
            let np = Participant {
                id: fresh.clone(),
                mail: input.mail.clone(),
                wish: w,
                event: String::from_str(event_id),
                status: ParticipantStatus::New,
            };
            participants.push(np);
            ids.push(fresh);
            proof {
                assert(members_view(participants@) =~= before.push(
                    (fr[i as int], input.mail@, input.wish@, event_id@, ParticipantStatus::New),
                ));
                assert(ids@.map_values(|s: String| s@) =~= before_ids.push(fr[i as int]));
            }
        }
        i = i + 1;
    }
    // Drop the event's participants that are no longer listed.
    let ghost kept_ids = ids@.map_values(|s: String| s@);
    let ghost all = members_view(participants@);
    let total = participants.len();
    let mut rest: Vec<Participant> = Vec::new();
    std::mem::swap(participants, &mut rest);
    let ghost start = rest@;
    let mut j: usize = 0;
    assert(start.skip(0) =~= start);
    assert(members_view(start.take(0)).filter(
        |p: (Seq<char>, Seq<char>, Seq<i32>, Seq<char>, ParticipantStatus)| p.3 != event_id@ || kept_ids.contains(p.0),
    ) =~= Seq::empty()) by {
        reveal_with_fuel(Seq::filter, 1);
    }
    while rest.len() > 0
        invariant
            j + rest.len() == total,
            start.len() == total,
            all == members_view(start),
            kept_ids == ids@.map_values(|s: String| s@),
            rest@ == start.skip(j as int),
            members_view(participants@) == members_view(start.take(j as int)).filter(
                |p: (Seq<char>, Seq<char>, Seq<i32>, Seq<char>, ParticipantStatus)| p.3 != event_id@ || kept_ids.contains(
                    p.0,
                ),
            ),
        decreases rest.len(),
    {
        let p = rest.remove(0);
        let ghost before = members_view(participants@);
        proof {
            reveal_with_fuel(Seq::filter, 1);
            assert(members_view(start.take(j + 1)).drop_last() =~= members_view(start.take(j as int)));
            assert(start.take(j + 1).last() == p);
            assert(members_view(start.take(j + 1)).last() == member_view(p));
            assert(rest@ =~= start.skip(j + 1));
        }
        let keep = !str_eq(p.event.as_str(), event_id) || listed(&ids, p.id.as_str());
        if keep {
            participants.push(p);
            assert(members_view(participants@) =~= before.push(member_view(p)));
        }
        j = j + 1;
    }
    assert(start.take(start.len() as int) =~= start);
    ids
}

/// Saves an event's participants as `save_participants` does, with a fresh random identifier
/// for each saved participant, used when it is new.
pub fn save_event_participants(
    participants: &mut Vec<Participant>,
    event_id: &str,
    inputs: &[ParticipantInput],
    slots_changed: bool,
) -> (ids: Vec<String>)
    ensures
        exists|fresh: Seq<Seq<char>>|
            #![trigger save_all(members_view(old(participants)@), inputs_view(inputs@), event_id@, slots_changed, fresh, inputs.len() as int)]
            {
                let r = save_all(
                    members_view(old(participants)@),
                    inputs_view(inputs@),
                    event_id@,
                    slots_changed,
                    fresh,
                    inputs.len() as int,
                );
                &&& fresh.len() == inputs.len()
                &&& forall|i: int| 0 <= i < fresh.len() ==> (#[trigger] fresh[i]).len() == 40
                &&& ids@.map_values(|s: String| s@) == r.1
                &&& members_view(final(participants)@) == staying(r.0, event_id@, r.1)
            },
{
    let mut fresh: Vec<String> = Vec::new();
    let mut i: usize = 0;
    while i < inputs.len()
        invariant
            i <= inputs.len(),
            fresh.len() == i,
            forall|k: int| 0 <= k < i ==> (#[trigger] fresh@[k])@.len() == 40,
        decreases inputs.len() - i,
    {
        fresh.push(gen_id());
        i = i + 1;
    }
    let ghost fv = fresh@.map_values(|s: String| s@);
    let ids = save_participants(participants, event_id, inputs, slots_changed, fresh.as_slice());
    assert(forall|k: int| 0 <= k < fv.len() ==> (#[trigger] fv[k]).len() == 40);
    ids
}

/// A participant opening the wish page: the wish becomes all zeros, one per slot, when it
/// does not have one value per slot, and a participant not further than mailed becomes a
/// visitor.
pub fn open_wish(p: &mut Participant, n_slots: usize)
    ensures
        final(p).id == old(p).id,
        final(p).mail == old(p).mail,
        final(p).event == old(p).event,
        final(p).wish@ == (if old(p).wish@.len() == n_slots {
            old(p).wish@
        } else {
            Seq::new(n_slots as nat, |i: int| 0i32)
        }),
        final(p).status == (if status_rank(old(p).status) < 30 {
            ParticipantStatus::Visited
        } else {
            old(p).status
        }),
{
    if p.wish.len() != n_slots {
        let mut w: Vec<i32> = Vec::new();
        let mut i: usize = 0;
        while i < n_slots
            invariant
                i <= n_slots,
                w@ == Seq::new(i as nat, |k: int| 0i32),
            decreases n_slots - i,
        {
            w.push(0);
            i = i + 1;
            assert(w@ =~= Seq::new(i as nat, |k: int| 0i32));
        }
        p.wish = w;
    }
    if p.status.as_i32() < 30 {
        p.status = ParticipantStatus::Visited;
    }
}

/// Why a participant's new wish is refused.
#[derive(Debug, Clone, Copy, PartialEq, Eq, Structural)]
pub enum WishRefusal {
    Unfair,
    WrongLength,
}

/// A participant saving a new wish: refused when it is not fair, then when it does not have
/// one value per slot; else the wish is stored and the participant has modified wishes.
pub fn update_wish(p: &mut Participant, wish: &[i32], n_slots: usize) -> (r: Result<(), WishRefusal>)
    ensures
        r == (if !is_fair(wish@) {
            Err(WishRefusal::Unfair)
        } else if wish@.len() != n_slots {
            Err(WishRefusal::WrongLength)
        } else {
            Ok(())
        }),
        r is Ok ==> final(p).wish@ == wish@ && final(p).status == ParticipantStatus::Modified,
        r is Err ==> final(p).wish@ == old(p).wish@ && final(p).status == old(p).status,
        final(p).id == old(p).id,
        final(p).mail == old(p).mail,
        final(p).event == old(p).event,
{
    if !is_fair_wish(wish) {
        return Err(WishRefusal::Unfair);
    }
    if wish.len() != n_slots {
        return Err(WishRefusal::WrongLength);
    }
    let mut w: Vec<i32> = Vec::new();
    let mut i: usize = 0;
    while i < wish.len()
        invariant
            i <= wish.len(),
            w@ == wish@.take(i as int),
        decreases wish.len() - i,
    {
        w.push(wish[i]);
        i = i + 1;
        assert(w@ =~= wish@.take(i as int));
    }
    assert(wish@.take(wish.len() as int) =~= wish@);
    p.wish = w;
    p.status = ParticipantStatus::Modified;
    Ok(())
}

/// The participants (by position) that a batch of mails goes to, among the first `k`: those
/// of the event (their identifier is listed) that still need a reminder, or for the mails
/// sent on saving, those not further than an update to send (rank at most 10).
pub open spec fn recipients(ps: Seq<Participant>, ids: Seq<Seq<char>>, reminder: bool, k: int) -> Seq<int>
    decreases k,
{
    if k <= 0 {
        Seq::empty()
    } else {
        let rest = recipients(ps, ids, reminder, k - 1);
        let p = ps[k - 1];
        let wanted = if reminder {
            status_needs_reminder(p.status)
        } else {
            status_rank(p.status) <= 10
        };
        if ids.contains(p.id@) && wanted {
            rest.push(k - 1)
        } else {
            rest
        }
    }
}

/// The positions of the event's participants that a batch of mails goes to, in order.
pub fn mail_recipients(participants: &Vec<Participant>, ids: &Vec<String>, reminder: bool) -> (r: Vec<usize>)
    ensures
        r@.map_values(|i: usize| i as int) == recipients(
            participants@,
            ids@.map_values(|s: String| s@),
            reminder,
            participants.len() as int,
        ),
{
    let ghost idv = ids@.map_values(|s: String| s@);
    let mut r: Vec<usize> = Vec::new();
    let mut i: usize = 0;
    while i < participants.len()
        invariant
            i <= participants.len(),
            idv == ids@.map_values(|s: String| s@),
            r@.map_values(|i: usize| i as int) == recipients(participants@, idv, reminder, i as int),
        decreases participants.len() - i,
    {
        let p = &participants[i];
        let wanted = if reminder {
            p.status.needs_reminder()
        } else {
            p.status.as_i32() <= 10
        };
        let ghost before = r@.map_values(|i: usize| i as int);
        if wanted && listed(ids, p.id.as_str()) {
            r.push(i);
            assert(r@.map_values(|i: usize| i as int) =~= before.push(i as int));
        }
        i = i + 1;
    }
    r
}

/// A copy of the slots.
pub(crate) fn copy_slots(slots: &Vec<Slot>) -> (r: Vec<Slot>)
    ensures
        r@.map_values(|s: Slot| slot_view(s)) == slots@.map_values(|s: Slot| slot_view(s)),
{
    let mut r: Vec<Slot> = Vec::new();
    let mut i: usize = 0;
    while i < slots.len()
        invariant
            i <= slots.len(),
            r@.map_values(|s: Slot| slot_view(s)) == slots@.take(i as int).map_values(|s: Slot| slot_view(s)),
        decreases slots.len() - i,
    {
        let s = &slots[i];
        let ghost before = r@.map_values(|s: Slot| slot_view(s));
        let name = s.name.clone();
        assert(name@ == s.name@);
        r.push(Slot { name: name, vmin: s.vmin, vmax: s.vmax });
        assert(r@.map_values(|s: Slot| slot_view(s)) =~= before.push(slot_view(slots@[i as int])));
        assert(slots@.take(i + 1).map_values(|s: Slot| slot_view(s)) =~= slots@.take(i as int).map_values(
            |s: Slot| slot_view(s),
        ).push(slot_view(slots@[i as int])));
        i = i + 1;
    }
    assert(slots@.take(slots.len() as int) =~= slots@);
    r
}

/// A new event and its participants, from the home page's request: refused with more than 100
/// slots or more than 1000 mails; else an event with a fresh identifier, the request's name,
/// administrator and slots, the site's address, the creation time and the templates of the
/// request's language, and for each mail a participant with a fresh identifier, a wish of
/// zeros (one per slot) and no mail sent yet.
pub fn create_event_data(req: &CreateEventRequest, base_url: &str, now_ms: i64) -> (r: Result<
    (Event, Vec<Participant>),
    DataError,
>)
    ensures
        req.slots.len() > MAX_EVENT_SLOTS ==> r == Err::<(Event, Vec<Participant>), DataError>(DataError::TooManySlots),
        req.slots.len() <= MAX_EVENT_SLOTS && req.mails.len() > MAX_EVENT_PARTICIPANTS ==> r == Err::<
            (Event, Vec<Participant>),
            DataError,
        >(DataError::TooManyParticipants),
        req.slots.len() <= MAX_EVENT_SLOTS && req.mails.len() <= MAX_EVENT_PARTICIPANTS ==> r is Ok,
        r matches Ok((e, ps)) ==> {
            &&& e.id@.len() == 40
            &&& e.name@ == req.name@
            &&& e.admin_mail@ == req.admin_mail@
            &&& e.slots@.map_values(|s: Slot| slot_view(s)) == req.slots@.map_values(|s: Slot| slot_view(s))
            &&& e.url@ == base_url@
            &&& e.creation_time == now_ms
            &&& e.templates.invite@ == invite_text(req.lang)
            &&& e.templates.update@ == update_text(req.lang)
            &&& e.templates.reminder@ == reminder_text(req.lang)
            &&& e.templates.results@ == results_text(req.lang)
            &&& ps.len() == req.mails.len()
            &&& e.participants@.map_values(|s: String| s@) == ps@.map_values(|p: Participant| p.id@)
            &&& forall|i: int|
                0 <= i < ps.len() ==> {
                    &&& (#[trigger] ps@[i]).id@.len() == 40
                    &&& ps@[i].mail@ == req.mails@[i]@
                    &&& ps@[i].wish@ == Seq::new(req.slots.len() as nat, |k: int| 0i32)
                    &&& ps@[i].event@ == e.id@
                    &&& ps@[i].status == ParticipantStatus::New
                }
        },
{
    if req.slots.len() > MAX_EVENT_SLOTS {
        return Err(DataError::TooManySlots);
    }
    if req.mails.len() > MAX_EVENT_PARTICIPANTS {
        return Err(DataError::TooManyParticipants);
    }
    let event_id = gen_id();
    let n_slots = req.slots.len();
    let mut ps: Vec<Participant> = Vec::new();
    let mut ids: Vec<String> = Vec::new();
    let mut i: usize = 0;
    while i < req.mails.len()
        invariant
            i <= req.mails.len(),
            n_slots == req.slots.len(),
            ps.len() == i,
            ids@.map_values(|s: String| s@) == ps@.map_values(|p: Participant| p.id@),
            forall|k: int|
                0 <= k < i ==> {
                    &&& (#[trigger] ps@[k]).id@.len() == 40
                    &&& ps@[k].mail@ == req.mails@[k]@
                    &&& ps@[k].wish@ == Seq::new(n_slots as nat, |j: int| 0i32)
                    &&& ps@[k].event@ == event_id@
                    &&& ps@[k].status == ParticipantStatus::New
                },
        decreases req.mails.len() - i,
    {
        let pid = gen_id();
        let mut w: Vec<i32> = Vec::new();
        let mut j: usize = 0;
        while j < n_slots
            invariant
                j <= n_slots,
                w@ == Seq::new(j as nat, |k: int| 0i32),
            decreases n_slots - j,
        {
            w.push(0);
            j = j + 1;
            assert(w@ =~= Seq::new(j as nat, |k: int| 0i32));
        }
        let ghost before_ids = ids@.map_values(|s: String| s@);
        let ghost before_ps = ps@.map_values(|p: Participant| p.id@);
        ids.push(pid.clone());
        ps.push(Participant {
            id: pid,
            mail: req.mails[i].clone(),
            wish: w,
            event: event_id.clone(),
            status: ParticipantStatus::New,
        });
        assert(ids@.map_values(|s: String| s@) =~= before_ids.push(ps@[i as int].id@));
        assert(ps@.map_values(|p: Participant| p.id@) =~= before_ps.push(ps@[i as int].id@));
        i = i + 1;
    }
    let event = Event {
        id: event_id,
        name: req.name.clone(),
        admin_mail: req.admin_mail.clone(),
        slots: copy_slots(&req.slots),
        url: String::from_str(base_url),
        participants: ids,
        creation_time: now_ms,
        templates: EmailTemplates::for_lang(req.lang),
    };
    Ok((event, ps))
}

/// `a` comes strictly before `b` in the order of their characters, as Rust orders strings
/// (byte order of UTF-8 is the order of the characters' code points).
pub open spec fn chars_lt(a: Seq<char>, b: Seq<char>) -> bool
    decreases a.len(),
{
    if b.len() == 0 {
        false
    } else if a.len() == 0 {
        true
    } else if a[0] != b[0] {
        a[0] < b[0]
    } else {
        chars_lt(a.drop_first(), b.drop_first())
    }
}

proof fn lemma_chars_lt_total(a: Seq<char>, b: Seq<char>)
    ensures
        chars_lt(a, b) || chars_lt(b, a) || a == b,
        !(chars_lt(a, b) && chars_lt(b, a)),
        !chars_lt(a, a),
    decreases a.len(),
{
    if a.len() > 0 && b.len() > 0 {
        lemma_chars_lt_total(a.drop_first(), b.drop_first());
        if a[0] == b[0] && a.drop_first() == b.drop_first() {
            assert forall|k: int| 0 <= k < a.len() implies a[k] == b[k] by {
                if k > 0 {
                    assert(a[k] == a.drop_first()[k - 1]);
                    assert(b[k] == b.drop_first()[k - 1]);
                }
            }
            assert(a =~= b);
        }
    } else if a.len() == 0 && b.len() == 0 {
        assert(a =~= b);
    }
    if a.len() > 0 {
        lemma_chars_lt_total(a.drop_first(), a.drop_first());
    }
}

proof fn lemma_chars_lt_trans(a: Seq<char>, b: Seq<char>, c: Seq<char>)
    requires
        chars_lt(a, b),
        chars_lt(b, c),
    ensures
        chars_lt(a, c),
    decreases a.len(),
{
    if a.len() > 0 && a[0] == b[0] && b[0] == c[0] {
        lemma_chars_lt_trans(a.drop_first(), b.drop_first(), c.drop_first());
    }
}

/// Whether `a` comes strictly before `b`.
fn str_lt(a: &str, b: &str) -> (r: bool)
    ensures
        r == chars_lt(a@, b@),
{
    let x = chars_of(a);
    let y = chars_of(b);
    let mut i: usize = 0;
    assert(x@.skip(0) =~= x@);
    assert(y@.skip(0) =~= y@);
    while i < x.len() && i < y.len() && x[i] == y[i]
        invariant
            i <= x.len(),
            i <= y.len(),
            x@.take(i as int) == y@.take(i as int),
            chars_lt(x@, y@) == chars_lt(x@.skip(i as int), y@.skip(i as int)),
        decreases x.len() - i,
    {
        proof {
            assert(x@.skip(i as int).drop_first() =~= x@.skip(i + 1));
            assert(y@.skip(i as int).drop_first() =~= y@.skip(i + 1));
            assert(x@.take(i + 1) =~= x@.take(i as int).push(x@[i as int]));
            assert(y@.take(i + 1) =~= y@.take(i as int).push(y@[i as int]));
        }
        i = i + 1;
    }
    if i == y.len() {
        assert(y@.skip(i as int).len() == 0);
        false
    } else if i == x.len() {
        assert(x@.skip(i as int).len() == 0);
        true
    } else {
        assert(x@.skip(i as int)[0] == x@[i as int]);
        assert(y@.skip(i as int)[0] == y@[i as int]);
        x[i] < y[i]
    }
}

/// `r` is `s` sorted stably by mail: `s` reordered, in order of mails, with participants of
/// equal mails in their order in `s`.
pub open spec fn sorted_by_mail(
    s: Seq<(Seq<char>, Seq<char>, Seq<i32>, Seq<char>, ParticipantStatus)>,
    r: Seq<(Seq<char>, Seq<char>, Seq<i32>, Seq<char>, ParticipantStatus)>,
) -> bool {
    exists|perm: Seq<int>|
        {
            &&& #[trigger] is_permutation(perm, s.len() as int)
            &&& r.len() == s.len()
            &&& forall|k: int| 0 <= k < r.len() ==> r[k] == s[perm[k]]
            &&& forall|k1: int, k2: int| 0 <= k1 < k2 < r.len() ==> !chars_lt(r[k2].1, r[k1].1)
            &&& forall|k1: int, k2: int|
                0 <= k1 < k2 < r.len() && r[k1].1 == r[k2].1 ==> perm[k1] < perm[k2]
        }
}

/// The first `i` entries of `s` sorted stably by mail into `r`, entry `k` of `r` being entry
/// `perm[k]` of `s`.
spec fn sort_inv(
    s: Seq<(Seq<char>, Seq<char>, Seq<i32>, Seq<char>, ParticipantStatus)>,
    r: Seq<(Seq<char>, Seq<char>, Seq<i32>, Seq<char>, ParticipantStatus)>,
    perm: Seq<int>,
    i: int,
) -> bool {
    &&& r.len() == i
    &&& is_permutation(perm, i)
    &&& forall|k: int| 0 <= k < i ==> #[trigger] r[k] == s[perm[k]]
    &&& forall|k1: int, k2: int| 0 <= k1 < k2 < i ==> !chars_lt(#[trigger] r[k2].1, #[trigger] r[k1].1)
    &&& forall|k1: int, k2: int| 0 <= k1 < k2 < i && #[trigger] r[k1].1 == #[trigger] r[k2].1 ==> perm[k1] < perm[k2]
}

/// Inserting entry `i` after the sorted entries whose mails do not come after its own keeps
/// the sort stable.
proof fn lemma_insert_sorted(
    s: Seq<(Seq<char>, Seq<char>, Seq<i32>, Seq<char>, ParticipantStatus)>,
    r: Seq<(Seq<char>, Seq<char>, Seq<i32>, Seq<char>, ParticipantStatus)>,
    perm: Seq<int>,
    i: int,
    pos: int,
)
    requires
        0 <= i < s.len(),
        sort_inv(s, r, perm, i),
        0 <= pos <= i,
        forall|k: int| 0 <= k < pos ==> !chars_lt(s[i].1, #[trigger] r[k].1),
        pos < i ==> chars_lt(s[i].1, r[pos].1),
    ensures
        sort_inv(s, r.insert(pos, s[i]), perm.insert(pos, i), i + 1),
{
    let r2 = r.insert(pos, s[i]);
    let p2 = perm.insert(pos, i);
    r.insert_ensures(pos, s[i]);
    perm.insert_ensures(pos, i);
    let x = s[i].1;
    // Old position of each new position.
    assert forall|k: int| 0 <= k < i + 1 implies 0 <= #[trigger] p2[k] < i + 1 && r2[k] == s[p2[k]] by {
        if k > pos {
            assert(r2[k] == r[k - 1] && p2[k] == perm[k - 1]);
        }
    }
    assert forall|k1: int, k2: int| 0 <= k1 < i + 1 && 0 <= k2 < i + 1 && k1 != k2 implies #[trigger] p2[k1]
        != #[trigger] p2[k2] by {
        let o1 = if k1 < pos { k1 } else { k1 - 1 };
        let o2 = if k2 < pos { k2 } else { k2 - 1 };
        if k1 != pos && k2 != pos {
            assert(p2[k1] == perm[o1] && p2[k2] == perm[o2]);
        } else if k1 == pos {
            assert(p2[k2] == perm[o2]);
        } else {
            assert(p2[k1] == perm[o1]);
        }
    }
    assert forall|k1: int, k2: int| 0 <= k1 < k2 < i + 1 implies !chars_lt(#[trigger] r2[k2].1, #[trigger] r2[k1].1)
        by {
        if k1 < pos && k2 < pos {
            assert(r2[k1] == r[k1] && r2[k2] == r[k2]);
        } else if k1 > pos {
            assert(r2[k1] == r[k1 - 1] && r2[k2] == r[k2 - 1]);
        } else if k1 < pos && k2 > pos {
            assert(r2[k1] == r[k1] && r2[k2] == r[k2 - 1]);
        } else if k1 < pos && k2 == pos {
            assert(r2[k1] == r[k1] && r2[k2] == s[i]);
        } else {
            // k1 == pos < k2: the new mail comes before the one at `pos`, which comes no
            // later than the one at `k2 - 1`.
            assert(r2[k1] == s[i] && r2[k2] == r[k2 - 1]);
            if chars_lt(r[k2 - 1].1, x) {
                lemma_chars_lt_trans(r[k2 - 1].1, x, r[pos].1);
                if k2 - 1 == pos {
                    lemma_chars_lt_total(r[pos].1, r[pos].1);
                }
            }
        }
    }
    assert forall|k1: int, k2: int| 0 <= k1 < k2 < i + 1 && #[trigger] r2[k1].1 == #[trigger] r2[k2].1 implies p2[k1]
        < p2[k2] by {
        if k1 < pos && k2 < pos {
            assert(r2[k1] == r[k1] && r2[k2] == r[k2]);
            assert(p2[k1] == perm[k1] && p2[k2] == perm[k2]);
        } else if k1 > pos {
            assert(r2[k1] == r[k1 - 1] && r2[k2] == r[k2 - 1]);
            assert(p2[k1] == perm[k1 - 1] && p2[k2] == perm[k2 - 1]);
        } else if k1 < pos && k2 > pos {
            assert(r2[k1] == r[k1] && r2[k2] == r[k2 - 1]);
            assert(p2[k1] == perm[k1] && p2[k2] == perm[k2 - 1]);
        } else if k1 < pos && k2 == pos {
            assert(p2[k1] == perm[k1] && p2[k2] == i);
        } else {
            assert(r2[k1] == s[i] && r2[k2] == r[k2 - 1]);
            if k2 - 1 == pos {
                lemma_chars_lt_total(x, x);
            } else {
                assert(!chars_lt(r[k2 - 1].1, r[pos].1));
            }
        }
    }
}

/// A copy of a participant.
fn copy_participant(p: &Participant) -> (r: Participant)
    ensures
        member_view(r) == member_view(*p),
{
    Participant {
        id: p.id.clone(),
        mail: p.mail.clone(),
        wish: copy_row(&p.wish),
        event: p.event.clone(),
        status: p.status,
    }
}

/// The participants whose identifier is in `ids`, in the database's order.
pub open spec fn listed_members(
    ps: Seq<(Seq<char>, Seq<char>, Seq<i32>, Seq<char>, ParticipantStatus)>,
    ids: Seq<Seq<char>>,
) -> Seq<(Seq<char>, Seq<char>, Seq<i32>, Seq<char>, ParticipantStatus)> {
    ps.filter(|p: (Seq<char>, Seq<char>, Seq<i32>, Seq<char>, ParticipantStatus)| ids.contains(p.0))
}

/// An event's participants (those whose identifier the event lists), sorted by mail; those
/// with the same mail stay in the database's order.
pub fn event_members(participants: &Vec<Participant>, ids: &Vec<String>) -> (r: Vec<Participant>)
    ensures
        sorted_by_mail(listed_members(members_view(participants@), ids@.map_values(|s: String| s@)), members_view(r@)),
{
    let ghost idv = ids@.map_values(|s: String| s@);
    let ghost all = members_view(participants@);
    // The listed participants, in order.
    let mut chosen: Vec<Participant> = Vec::new();
    let mut i: usize = 0;
    assert(all.take(0).filter(
        |p: (Seq<char>, Seq<char>, Seq<i32>, Seq<char>, ParticipantStatus)| idv.contains(p.0),
    ) =~= Seq::empty()) by {
        reveal_with_fuel(Seq::filter, 1);
    }
    while i < participants.len()
        invariant
            i <= participants.len(),
            idv == ids@.map_values(|s: String| s@),
            all == members_view(participants@),
            members_view(chosen@) == listed_members(all.take(i as int), idv),
        decreases participants.len() - i,
    {
        let ghost before = members_view(chosen@);
        proof {
            reveal_with_fuel(Seq::filter, 1);
            assert(all.take(i + 1).drop_last() =~= all.take(i as int));
            assert(all.take(i + 1).last() == member_view(participants@[i as int]));
        }
        if listed(ids, participants[i].id.as_str()) {
            chosen.push(copy_participant(&participants[i]));
            assert(members_view(chosen@) =~= before.push(member_view(participants@[i as int])));
        }
        i = i + 1;
    }
    assert(all.take(participants.len() as int) =~= all);
    let ghost s = members_view(chosen@);
    // Insertion sort by mail, keeping equal mails in order.
    let mut r: Vec<Participant> = Vec::new();
    let ghost mut perm: Seq<int> = Seq::empty();
    let mut i: usize = 0;
    while i < chosen.len()
        invariant
            i <= chosen.len(),
            s == members_view(chosen@),
            sort_inv(s, members_view(r@), perm, i as int),
        decreases chosen.len() - i,
    {
        let x = copy_participant(&chosen[i]);
        let mut pos: usize = 0;
        while pos < r.len() && !str_lt(x.mail.as_str(), r[pos].mail.as_str())
            invariant
                pos <= r.len(),
                member_view(x) == s[i as int],
                forall|k: int| 0 <= k < pos ==> !chars_lt(s[i as int].1, #[trigger] members_view(r@)[k].1),
            decreases r.len() - pos,
        {
            pos = pos + 1;
        }
        proof {
            lemma_insert_sorted(s, members_view(r@), perm, i as int, pos as int);
            perm = perm.insert(pos as int, i as int);
        }
        let ghost before = members_view(r@);
        r.insert(pos, x);
        assert(members_view(r@) =~= before.insert(pos as int, s[i as int]));
        i = i + 1;
    }
    proof {
        assert(members_view(r@).len() == s.len());
    }
    r
}

/// `id` is that of a participant of `event` in `ps`.
pub open spec fn member_of(
    ps: Seq<(Seq<char>, Seq<char>, Seq<i32>, Seq<char>, ParticipantStatus)>,
    id: Seq<char>,
    event: Seq<char>,
) -> bool {
    exists|m: int| 0 <= m < ps.len() && (#[trigger] ps[m]).0 == id && ps[m].3 == event
}

/// Each identifier of `ids` is that of a participant of `event` in `ps`.
pub open spec fn all_listed_in(
    ps: Seq<(Seq<char>, Seq<char>, Seq<i32>, Seq<char>, ParticipantStatus)>,
    ids: Seq<Seq<char>>,
    event: Seq<char>,
) -> bool {
    forall|j: int| 0 <= j < ids.len() ==> member_of(ps, #[trigger] ids[j], event)
}

/// After any saved participants are applied, each listed identifier is that of a participant
/// of the event.
proof fn lemma_save_all_listed(
    ps: Seq<(Seq<char>, Seq<char>, Seq<i32>, Seq<char>, ParticipantStatus)>,
    inputs: Seq<(Seq<char>, Seq<i32>)>,
    event: Seq<char>,
    changed: bool,
    fresh: Seq<Seq<char>>,
    k: int,
)
    requires
        0 <= k <= inputs.len(),
        k <= fresh.len(),
    ensures
        all_listed_in(save_all(ps, inputs, event, changed, fresh, k).0, save_all(ps, inputs, event, changed, fresh, k).1, event),
    decreases k,
{
    if k > 0 {
        lemma_save_all_listed(ps, inputs, event, changed, fresh, k - 1);
        let st = save_all(ps, inputs, event, changed, fresh, k - 1);
        let r = save_all(ps, inputs, event, changed, fresh, k);
        let input = inputs[k - 1];
        let pk = find_member(st.0, input.0, event);
        lemma_find_member_bound(st.0, input.0, event);
        assert(r == save_step(st, input, event, changed, fresh[k - 1]));
        assert forall|j: int| 0 <= j < r.1.len() implies member_of(r.0, #[trigger] r.1[j], event) by {
            if j < st.1.len() {
                assert(st.1[j] == r.1[j]);
                assert(member_of(st.0, st.1[j], event));
                let m = choose|m: int| 0 <= m < st.0.len() && (#[trigger] st.0[m]).0 == st.1[j] && st.0[m].3 == event;
                assert(r.0[m].0 == st.0[m].0 && r.0[m].3 == st.0[m].3);
            } else if pk < st.0.len() {
                assert(r.0[pk].0 == st.0[pk].0);
                assert(r.0[pk].3 == event);
            } else {
                let m = st.0.len() as int;
                assert(r.0[m].0 == fresh[k - 1]);
            }
        }
        assert(all_listed_in(r.0, r.1, event));
    } else {
        assert(save_all(ps, inputs, event, changed, fresh, k).1.len() == 0);
    }
}

proof fn lemma_find_member_bound(
    ps: Seq<(Seq<char>, Seq<char>, Seq<i32>, Seq<char>, ParticipantStatus)>,
    mail: Seq<char>,
    event: Seq<char>,
)
    ensures
        0 <= find_member(ps, mail, event) <= ps.len(),
        find_member(ps, mail, event) < ps.len() ==> ps[find_member(ps, mail, event)].1 == mail
            && ps[find_member(ps, mail, event)].3 == event,
    decreases ps.len(),
{
    if ps.len() > 0 && !(ps[0].1 == mail && ps[0].3 == event) {
        lemma_find_member_bound(ps.drop_first(), mail, event);
    }
}

/// After saving, an event's list of participants and its participants in the database agree:
/// every listed identifier is that of a participant of the event still in the database, and
/// every participant of the event in the database is listed.
pub proof fn lemma_saved_roster_consistent(
    ps: Seq<(Seq<char>, Seq<char>, Seq<i32>, Seq<char>, ParticipantStatus)>,
    inputs: Seq<(Seq<char>, Seq<i32>)>,
    event: Seq<char>,
    changed: bool,
    fresh: Seq<Seq<char>>,
)
    requires
        fresh.len() >= inputs.len(),
    ensures
        ({
            let r = save_all(ps, inputs, event, changed, fresh, inputs.len() as int);
            let kept = staying(r.0, event, r.1);
            &&& all_listed_in(kept, r.1, event)
            &&& forall|m: int| 0 <= m < kept.len() && (#[trigger] kept[m]).3 == event ==> r.1.contains(kept[m].0)
        }),
{
    let r = save_all(ps, inputs, event, changed, fresh, inputs.len() as int);
    let pred = stays(event, r.1);
    let kept = r.0.filter(pred);
    lemma_save_all_listed(ps, inputs, event, changed, fresh, inputs.len() as int);
    assert forall|j: int| 0 <= j < r.1.len() implies member_of(kept, #[trigger] r.1[j], event) by {
        assert(member_of(r.0, r.1[j], event));
        let m0 = choose|m: int| 0 <= m < r.0.len() && (#[trigger] r.0[m]).0 == r.1[j] && r.0[m].3 == event;
        assert(r.1.contains(r.0[m0].0));
        r.0.lemma_filter_contains(pred, m0);
        let m = choose|m: int| 0 <= m < kept.len() && kept[m] == r.0[m0];
        assert(kept[m].0 == r.1[j]);
    }
    assert forall|m: int| 0 <= m < kept.len() && (#[trigger] kept[m]).3 == event implies r.1.contains(kept[m].0) by {
        r.0.lemma_filter_pred(pred, m);
    }
    assert(all_listed_in(kept, r.1, event));
}

/// Before the position `find_member` gives, no participant of `event` has `mail`.
proof fn lemma_find_member_first(
    ps: Seq<(Seq<char>, Seq<char>, Seq<i32>, Seq<char>, ParticipantStatus)>,
    mail: Seq<char>,
    event: Seq<char>,
)
    ensures
        forall|q: int| 0 <= q < find_member(ps, mail, event) && q < ps.len() ==> !(#[trigger] ps[q].1 == mail && ps[q].3
            == event),
    decreases ps.len(),
{
    if ps.len() > 0 && !(ps[0].1 == mail && ps[0].3 == event) {
        lemma_find_member_first(ps.drop_first(), mail, event);
        assert forall|q: int| 0 <= q < find_member(ps, mail, event) && q < ps.len() implies !(#[trigger] ps[q].1 == mail
            && ps[q].3 == event) by {
            if q > 0 {
                assert(ps[q] == ps.drop_first()[q - 1]);
            }
        }
    }
}

/// One of the first `k` saved participants has `mail`.
pub open spec fn mail_among(inputs: Seq<(Seq<char>, Seq<i32>)>, k: int, mail: Seq<char>) -> bool {
    exists|j: int| 0 <= j < k && (#[trigger] inputs[j]).0 == mail
}

/// No mail occurs twice among the saved participants.
pub open spec fn distinct_mails(inputs: Seq<(Seq<char>, Seq<i32>)>) -> bool {
    forall|i: int, j: int| 0 <= i < inputs.len() && 0 <= j < inputs.len() && i != j ==> (#[trigger] inputs[i]).0
        != (#[trigger] inputs[j]).0
}

/// What saved participant `j` becomes: the first participant of `event` with its mail keeps
/// its identifier and mail, takes the new wish and keeps its status unless it must be mailed
/// again; without one, a new participant with the fresh identifier and the status `New`.
pub open spec fn saved_member(
    ps: Seq<(Seq<char>, Seq<char>, Seq<i32>, Seq<char>, ParticipantStatus)>,
    inputs: Seq<(Seq<char>, Seq<i32>)>,
    event: Seq<char>,
    changed: bool,
    fresh: Seq<Seq<char>>,
    j: int,
) -> (Seq<char>, Seq<char>, Seq<i32>, Seq<char>, ParticipantStatus) {
    let k = find_member(ps, inputs[j].0, event);
    if k < ps.len() {
        (ps[k].0, inputs[j].0, inputs[j].1, event, status_after_save(ps[k].4, changed))
    } else {
        (fresh[j], inputs[j].0, inputs[j].1, event, ParticipantStatus::New)
    }
}

/// What holds after the first `k` saved participants are applied.
pub open spec fn save_progress(
    ps: Seq<(Seq<char>, Seq<char>, Seq<i32>, Seq<char>, ParticipantStatus)>,
    inputs: Seq<(Seq<char>, Seq<i32>)>,
    event: Seq<char>,
    changed: bool,
    fresh: Seq<Seq<char>>,
    k: int,
) -> bool {
    let r = save_all(ps, inputs, event, changed, fresh, k);
    &&& r.0.len() >= ps.len()
    &&& r.1.len() == k
    &&& forall|m: int|
        0 <= m < ps.len() ==> (#[trigger] r.0[m]).0 == ps[m].0 && r.0[m].1 == ps[m].1 && r.0[m].3 == ps[m].3
    &&& forall|m: int| 0 <= m < ps.len() && !mail_among(inputs, k, ps[m].1) ==> #[trigger] r.0[m] == ps[m]
    &&& forall|m: int| 0 <= m < ps.len() && ps[m].3 != event ==> #[trigger] r.0[m] == ps[m]
    &&& forall|m: int| ps.len() <= m < r.0.len() ==> mail_among(inputs, k, (#[trigger] r.0[m]).1)
    &&& forall|j: int|
        0 <= j < k ==> r.1[j] == (#[trigger] saved_member(ps, inputs, event, changed, fresh, j)).0 && r.0.contains(
            saved_member(ps, inputs, event, changed, fresh, j),
        )
}

proof fn lemma_save_progress(
    ps: Seq<(Seq<char>, Seq<char>, Seq<i32>, Seq<char>, ParticipantStatus)>,
    inputs: Seq<(Seq<char>, Seq<i32>)>,
    event: Seq<char>,
    changed: bool,
    fresh: Seq<Seq<char>>,
    k: int,
)
    requires
        0 <= k <= inputs.len(),
        k <= fresh.len(),
        distinct_mails(inputs),
    ensures
        save_progress(ps, inputs, event, changed, fresh, k),
    decreases k,
{
    if k == 0 {
        let r = save_all(ps, inputs, event, changed, fresh, 0);
        assert(r == (ps, Seq::<Seq<char>>::empty()));
    } else {
        lemma_save_progress(ps, inputs, event, changed, fresh, k - 1);
        let st = save_all(ps, inputs, event, changed, fresh, k - 1);
        let r = save_all(ps, inputs, event, changed, fresh, k);
        let input = inputs[k - 1];
        let mail = input.0;
        assert(r == save_step(st, input, event, changed, fresh[k - 1]));
        // The new mail is none of the earlier ones.
        assert(!mail_among(inputs, k - 1, mail)) by {
            if mail_among(inputs, k - 1, mail) {
                let j = choose|j: int| 0 <= j < k - 1 && (#[trigger] inputs[j]).0 == mail;
                assert(inputs[j].0 != inputs[k - 1].0);
            }
        }
        // The database finds the same participant as the list before saving did.
        let kp = find_member(ps, mail, event);
        lemma_find_member_bound(ps, mail, event);
        lemma_find_member_first(ps, mail, event);
        let ks = if kp < ps.len() { kp } else { st.0.len() as int };
        assert forall|q: int| 0 <= q < ks implies !(#[trigger] st.0[q].1 == mail && st.0[q].3 == event) by {
            if q < ps.len() {
                assert(st.0[q].1 == ps[q].1 && st.0[q].3 == ps[q].3);
            } else {
                assert(mail_among(inputs, k - 1, st.0[q].1));
            }
        }
        if kp < ps.len() {
            assert(st.0[kp].1 == ps[kp].1 && st.0[kp].3 == ps[kp].3);
        }
        lemma_find_member(st.0, mail, event, ks);
        if kp < ps.len() {
            assert(st.0[kp] == ps[kp]);
        }
        let sm = saved_member(ps, inputs, event, changed, fresh, k - 1);
        let at = if kp < ps.len() { kp } else { st.0.len() as int };
        assert(r.0[at] == sm);
        assert(r.1[k - 1] == sm.0);
        assert forall|m: int| 0 <= m < ps.len() implies (#[trigger] r.0[m]).0 == ps[m].0 && r.0[m].1 == ps[m].1
            && r.0[m].3 == ps[m].3 by {
            assert(st.0[m].0 == ps[m].0);
        }
        assert forall|m: int| 0 <= m < ps.len() && !mail_among(inputs, k, ps[m].1) implies #[trigger] r.0[m] == ps[m] by {
            if mail_among(inputs, k - 1, ps[m].1) {
                let j = choose|j: int| 0 <= j < k - 1 && (#[trigger] inputs[j]).0 == ps[m].1;
                assert(mail_among(inputs, k, ps[m].1));
            }
            assert(st.0[m] == ps[m]);
            if m == kp {
                assert(ps[m].1 == mail);
                assert(inputs[k - 1].0 == ps[m].1);
                assert(mail_among(inputs, k, ps[m].1));
            }
        }
        assert forall|m: int| 0 <= m < ps.len() && ps[m].3 != event implies #[trigger] r.0[m] == ps[m] by {
            assert(st.0[m] == ps[m]);
        }
        assert forall|m: int| ps.len() <= m < r.0.len() implies mail_among(inputs, k, (#[trigger] r.0[m]).1) by {
            if m < st.0.len() {
                assert(mail_among(inputs, k - 1, st.0[m].1));
                let j = choose|j: int| 0 <= j < k - 1 && (#[trigger] inputs[j]).0 == st.0[m].1;
                assert(r.0[m].1 == st.0[m].1);
                assert(inputs[j].0 == r.0[m].1);
            } else {
                assert(inputs[k - 1].0 == r.0[m].1);
            }
        }
        assert forall|j: int| 0 <= j < k implies r.1[j] == (#[trigger] saved_member(ps, inputs, event, changed, fresh, j)).0
            && r.0.contains(saved_member(ps, inputs, event, changed, fresh, j)) by {
            if j < k - 1 {
                let smj = saved_member(ps, inputs, event, changed, fresh, j);
                assert(st.1[j] == smj.0);
                assert(st.0.contains(smj));
                let m = choose|m: int| 0 <= m < st.0.len() && st.0[m] == smj;
                assert(smj.1 == inputs[j].0);
                assert(inputs[j].0 != inputs[k - 1].0);
                if m == at && kp < ps.len() {
                    assert(st.0[m].1 == mail);
                }
                assert(r.0[m] == st.0[m]);
                assert(r.1[j] == st.1[j]);
            } else {
                assert(r.0[at] == sm);
            }
        }
    }
}

/// Saving participants with distinct mails: each saved participant ends up in the database,
/// listed under the identifier the list gives it, as `saved_member` says (an existing
/// participant of the event keeps its identifier, takes the new wish and must be mailed again
/// when the slots changed and it had been mailed; a new one gets the fresh identifier and the
/// status `New`); participants of other events stay as they were.
pub proof fn lemma_saved_members(
    ps: Seq<(Seq<char>, Seq<char>, Seq<i32>, Seq<char>, ParticipantStatus)>,
    inputs: Seq<(Seq<char>, Seq<i32>)>,
    event: Seq<char>,
    changed: bool,
    fresh: Seq<Seq<char>>,
)
    requires
        fresh.len() >= inputs.len(),
        distinct_mails(inputs),
    ensures
        ({
            let r = save_all(ps, inputs, event, changed, fresh, inputs.len() as int);
            let kept = staying(r.0, event, r.1);
            &&& r.1.len() == inputs.len()
            &&& forall|j: int|
                0 <= j < inputs.len() ==> r.1[j] == (#[trigger] saved_member(ps, inputs, event, changed, fresh, j)).0
                    && kept.contains(saved_member(ps, inputs, event, changed, fresh, j))
            &&& forall|m: int| 0 <= m < ps.len() && ps[m].3 != event ==> kept.contains(#[trigger] ps[m])
        }),
{
    let n = inputs.len() as int;
    lemma_save_progress(ps, inputs, event, changed, fresh, n);
    let r = save_all(ps, inputs, event, changed, fresh, n);
    let pred = stays(event, r.1);
    let kept = r.0.filter(pred);
    assert forall|j: int| 0 <= j < n implies r.1[j] == (#[trigger] saved_member(ps, inputs, event, changed, fresh, j)).0
        && kept.contains(saved_member(ps, inputs, event, changed, fresh, j)) by {
        let sm = saved_member(ps, inputs, event, changed, fresh, j);
        let m = choose|m: int| 0 <= m < r.0.len() && r.0[m] == sm;
        assert(r.1[j] == sm.0);
        assert(r.1.contains(sm.0));
        assert(pred(r.0[m]));
        r.0.lemma_filter_contains(pred, m);
    }
    assert forall|m: int| 0 <= m < ps.len() && ps[m].3 != event implies kept.contains(#[trigger] ps[m]) by {
        assert(r.0[m] == ps[m]);
        assert(pred(r.0[m]));
        r.0.lemma_filter_contains(pred, m);
    }
}

/// A participant's status after one mail of a batch: a failed mail is an error; a mail sent
/// on saving leaves the participant mailed; a reminder sent changes nothing.
pub open spec fn status_after_mail(s: ParticipantStatus, sent: bool, reminder: bool) -> ParticipantStatus {
    if !sent {
        ParticipantStatus::MailError
    } else if reminder {
        s
    } else {
        ParticipantStatus::Mailed
    }
}

/// The status to store after trying to mail a participant.
pub fn status_after_sending(status: ParticipantStatus, sent: bool, reminder: bool) -> (r: ParticipantStatus)
    ensures
        r == status_after_mail(status, sent, reminder),
{
    if !sent {
        ParticipantStatus::MailError
    } else if reminder {
        status
    } else {
        ParticipantStatus::Mailed
    }
}

/// The count of mails sent after one more attempt, and the progress message for the
/// administrator's page: that count, the batch's size, the recipient and the error if any.
pub fn progress_after_send(sent: usize, total: usize, to: &str, error: Option<String>) -> (r: (usize, WsMsg))
    requires
        sent < usize::MAX,
    ensures
        r.0 == (if error is None {
            sent + 1
        } else {
            sent as int
        }),
        r.1 matches WsMsg::MailProgress { sent: s, total: t, mail: m, error: e } && s == r.0 && t == total && m@
            == to@ && e == error,
{
    let now = if error.is_none() {
        sent + 1
    } else {
        sent
    };
    (now, WsMsg::MailProgress { sent: now, total, mail: String::from_str(to), error })
}

} // verus!
