//! An administrator saving an event's data: the data is checked, the event looked up, its
//! slots replaced and its participants saved, and the event's data answered with its
//! participants sorted by mail.
use vstd::prelude::*;
use crate::model::{Event, EmailTemplates, Participant, SetDataRequest, AdminData, Slot};
use crate::parse::slot_view;
use crate::server::{DataError, data_problem, check_event_data, slots_differ, slots_changed};
use crate::roster::{
    members_view, inputs_view, save_all, staying, sorted_by_mail, listed_members, save_event_participants,
    event_members, copy_slots,
};
use crate::text::str_eq;

verus! {

/// Why saving an event's data is refused.
#[derive(Debug, Clone, Copy, PartialEq, Eq, Structural)]
pub enum SaveRefusal {
    /// The data breaks a rule (answered as a bad request).
    Invalid(DataError),
    /// No event has the identifier (answered as not found).
    NotFound,
}

/// Position of the first event with identifier `id`, or the number of events when none has it.
pub open spec fn event_index(events: Seq<Event>, id: Seq<char>) -> int
    decreases events.len(),
{
    if events.len() == 0 {
        0
    } else if events[0].id@ == id {
        0
    } else {
        1 + event_index(events.drop_first(), id)
    }
}

proof fn lemma_event_index(events: Seq<Event>, id: Seq<char>, i: int)
    requires
        0 <= i <= events.len(),
        forall|k: int| 0 <= k < i ==> events[k].id@ != id,
        i == events.len() || events[i].id@ == id,
    ensures
        event_index(events, id) == i,
    decreases i,
{
    if i > 0 {
        lemma_event_index(events.drop_first(), id, i - 1);
    }
}

/// Position of the first event with identifier `id`.
fn find_event(events: &Vec<Event>, id: &str) -> (k: usize)
    ensures
        k == event_index(events@, id@),
        k <= events.len(),
        k < events.len() ==> events@[k as int].id@ == id@,
{
    let mut i: usize = 0;
    while i < events.len()
        invariant
            i <= events.len(),
            forall|j: int| 0 <= j < i ==> events@[j].id@ != id@,
        decreases events.len() - i,
    {
        if str_eq(events[i].id.as_str(), id) {
            proof {
                lemma_event_index(events@, id@, i as int);
            }
            return i;
        }
        i = i + 1;
    }
    proof {
        lemma_event_index(events@, id@, i as int);
    }
    i
}

/// The text of each template.
pub open spec fn templates_view(t: EmailTemplates) -> (Seq<char>, Seq<char>, Seq<char>, Seq<char>) {
    (t.invite@, t.update@, t.reminder@, t.results@)
}

fn copy_templates(t: &EmailTemplates) -> (r: EmailTemplates)
    ensures
        templates_view(r) == templates_view(*t),
{
    let invite = t.invite.clone();
    let update = t.update.clone();
    let reminder = t.reminder.clone();
    let results = t.results.clone();
    EmailTemplates { invite, update, reminder, results }
}

/// The saved event: its slots and its list of participants replaced, the rest kept.
pub open spec fn saved_event(old_event: Event, new_event: Event, req: SetDataRequest) -> bool {
    &&& new_event.id == old_event.id
    &&& new_event.name == old_event.name
    &&& new_event.admin_mail == old_event.admin_mail
    &&& new_event.url == old_event.url
    &&& new_event.creation_time == old_event.creation_time
    &&& new_event.templates == old_event.templates
    &&& new_event.slots@.map_values(|s: Slot| slot_view(s)) == req.slots@.map_values(|s: Slot| slot_view(s))
}

/// Saves an administrator's data for event `event_id`. Data that breaks a rule is refused
/// with the first problem (`data_problem`); an unknown event is refused as not found; in
/// both cases nothing changes. Otherwise the first event with that identifier gets the new
/// slots, its participants are saved as `save_event_participants` does (kept participants
/// must be mailed again when a slot was renamed or the number of slots changed) and its
/// list of participants becomes the saved one; other events stay as they were. The answer
/// holds the event's name, its new slots, its templates and its participants sorted by mail.
pub fn set_admin_data(
    events: &mut Vec<Event>,
    participants: &mut Vec<Participant>,
    event_id: &str,
    req: &SetDataRequest,
) -> (r: Result<AdminData, SaveRefusal>)
    ensures
        ({
            let k = event_index(old(events)@, event_id@);
            match r {
                Err(SaveRefusal::Invalid(e)) => {
                    &&& data_problem(req.slots@, req.participants@) == Some(e)
                    &&& final(events)@ == old(events)@
                    &&& final(participants)@ == old(participants)@
                },
                Err(SaveRefusal::NotFound) => {
                    &&& data_problem(req.slots@, req.participants@) is None
                    &&& k == old(events)@.len()
                    &&& final(events)@ == old(events)@
                    &&& final(participants)@ == old(participants)@
                },
                Ok(d) => {
                    let old_event = old(events)@[k];
                    let new_event = final(events)@[k];
                    let ids = new_event.participants@.map_values(|s: String| s@);
                    &&& data_problem(req.slots@, req.participants@) is None
                    &&& k < old(events)@.len()
                    &&& final(events)@.len() == old(events)@.len()
                    &&& forall|j: int| 0 <= j < old(events)@.len() && j != k ==> #[trigger] final(events)@[j] == old(events)@[j]
                    &&& saved_event(old_event, new_event, *req)
                    &&& exists|fresh: Seq<Seq<char>>|
                        #![trigger save_all(members_view(old(participants)@), inputs_view(req.participants@), event_id@, slots_differ(old_event.slots@, req.slots@), fresh, req.participants.len() as int)]
                        {
                            let s = save_all(
                                members_view(old(participants)@),
                                inputs_view(req.participants@),
                                event_id@,
                                slots_differ(old_event.slots@, req.slots@),
                                fresh,
                                req.participants.len() as int,
                            );
                            &&& fresh.len() == req.participants.len()
                            &&& forall|i: int| 0 <= i < fresh.len() ==> (#[trigger] fresh[i]).len() == 40
                            &&& ids == s.1
                            &&& members_view(final(participants)@) == staying(s.0, event_id@, s.1)
                        }
                    &&& d.name@ == old_event.name@
                    &&& d.slots@.map_values(|s: Slot| slot_view(s)) == req.slots@.map_values(|s: Slot| slot_view(s))
                    &&& templates_view(d.templates) == templates_view(old_event.templates)
                    &&& sorted_by_mail(listed_members(members_view(final(participants)@), ids), members_view(d.participants@))
                },
            }
        }),
{
    match check_event_data(req.slots.as_slice(), req.participants.as_slice()) {
        Err(e) => {
            return Err(SaveRefusal::Invalid(e));
        },
        Ok(()) => {},
    }
    let k = find_event(events, event_id);
    if k == events.len() {
        return Err(SaveRefusal::NotFound);
    }
    let ghost old_events = events@;
    let ghost old_ps = participants@;
    let changed = slots_changed(events[k].slots.as_slice(), req.slots.as_slice());
    let new_slots = copy_slots(&req.slots);
    let ids = save_event_participants(participants, event_id, req.participants.as_slice(), changed);
    let ghost idv = ids@.map_values(|s: String| s@);
    {
        let e = &mut events[k];
        e.slots = new_slots;
        e.participants = ids;
    }
    assert(events@[k as int].participants@.map_values(|s: String| s@) == idv);
    let members = event_members(participants, &events[k].participants);
    let name = events[k].name.clone();
    let answer_slots = copy_slots(&events[k].slots);
    let templates = copy_templates(&events[k].templates);
    let d = AdminData { name, slots: answer_slots, participants: members, templates };
    proof {
        assert forall|j: int| 0 <= j < old_events.len() && j != k implies #[trigger] events@[j] == old_events[j] by {}
        assert(changed == slots_differ(old_events[k as int].slots@, req.slots@));
        let fresh = choose|fresh: Seq<Seq<char>>|
            #![trigger save_all(members_view(old_ps), inputs_view(req.participants@), event_id@, changed, fresh, req.participants.len() as int)]
            {
            let s = save_all(members_view(old_ps), inputs_view(req.participants@), event_id@, changed, fresh, req.participants.len() as int);
            &&& fresh.len() == req.participants.len()
            &&& forall|i: int| 0 <= i < fresh.len() ==> (#[trigger] fresh[i]).len() == 40
            &&& idv == s.1
            &&& members_view(participants@) == staying(s.0, event_id@, s.1)
        };
        assert(fresh.len() == req.participants.len());
    }
    Ok(d)
}

} // verus!
