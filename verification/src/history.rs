//! The history of events that the site's owner can see: one entry per event, newest first.
use vstd::prelude::*;
use crate::model::{Event, HistoryEntry, Config};
use crate::text::str_eq;
use crate::permutation::is_permutation;

verus! {

/// An entry's identifier, name, administrator, number of participants and creation time.
pub open spec fn entry_view(e: HistoryEntry) -> (Seq<char>, Seq<char>, Seq<char>, int, int) {
    (e.id@, e.name@, e.admin_mail@, e.num_participants as int, e.creation_time as int)
}

/// The entry of an event.
pub open spec fn event_entry(e: Event) -> (Seq<char>, Seq<char>, Seq<char>, int, int) {
    (e.id@, e.name@, e.admin_mail@, e.participants@.len() as int, e.creation_time as int)
}

/// `r` is `s` sorted stably from the newest to the oldest: `s` reordered, by decreasing
/// creation time, with entries of the same time in their order in `s`.
pub open spec fn newest_first(
    s: Seq<(Seq<char>, Seq<char>, Seq<char>, int, int)>,
    r: Seq<(Seq<char>, Seq<char>, Seq<char>, int, int)>,
) -> bool {
    exists|perm: Seq<int>|
        {
            &&& #[trigger] is_permutation(perm, s.len() as int)
            &&& r.len() == s.len()
            &&& forall|k: int| 0 <= k < r.len() ==> r[k] == s[perm[k]]
            &&& forall|k1: int, k2: int| 0 <= k1 < k2 < r.len() ==> r[k1].4 >= r[k2].4
            &&& forall|k1: int, k2: int| 0 <= k1 < k2 < r.len() && r[k1].4 == r[k2].4 ==> perm[k1] < perm[k2]
        }
}

spec fn sort_inv(
    s: Seq<(Seq<char>, Seq<char>, Seq<char>, int, int)>,
    r: Seq<(Seq<char>, Seq<char>, Seq<char>, int, int)>,
    perm: Seq<int>,
    i: int,
) -> bool {
    &&& r.len() == i
    &&& is_permutation(perm, i)
    &&& forall|k: int| 0 <= k < i ==> #[trigger] r[k] == s[perm[k]]
    &&& forall|k1: int, k2: int| 0 <= k1 < k2 < i ==> #[trigger] r[k1].4 >= #[trigger] r[k2].4
    &&& forall|k1: int, k2: int| 0 <= k1 < k2 < i && #[trigger] r[k1].4 == #[trigger] r[k2].4 ==> perm[k1] < perm[k2]
}

/// Inserting entry `i` after the sorted entries not older than it keeps the sort stable.
proof fn lemma_insert_sorted(
    s: Seq<(Seq<char>, Seq<char>, Seq<char>, int, int)>,
    r: Seq<(Seq<char>, Seq<char>, Seq<char>, int, int)>,
    perm: Seq<int>,
    i: int,
    pos: int,
)
    requires
        0 <= i < s.len(),
        sort_inv(s, r, perm, i),
        0 <= pos <= i,
        forall|k: int| 0 <= k < pos ==> (#[trigger] r[k]).4 >= s[i].4,
        pos < i ==> r[pos].4 < s[i].4,
    ensures
        sort_inv(s, r.insert(pos, s[i]), perm.insert(pos, i), i + 1),
{
    let r2 = r.insert(pos, s[i]);
    let p2 = perm.insert(pos, i);
    r.insert_ensures(pos, s[i]);
    perm.insert_ensures(pos, i);
    assert forall|k: int| 0 <= k < i + 1 implies 0 <= #[trigger] p2[k] < i + 1 && r2[k] == s[p2[k]] by {
        if k > pos {
            assert(r2[k] == r[k - 1] && p2[k] == perm[k - 1]);
        }
    }
    assert forall|k1: int, k2: int| 0 <= k1 < i + 1 && 0 <= k2 < i + 1 && k1 != k2 implies #[trigger] p2[k1]
        != #[trigger] p2[k2] by {
        let o1 = if k1 < pos { k1 } else { k1 - 1 };
        let o2 = if k2 < pos { k2 } else { k2 - 1 };
        if k1 != pos && k2 != pos {
            assert(p2[k1] == perm[o1] && p2[k2] == perm[o2]);
        } else if k1 == pos {
            assert(p2[k2] == perm[o2]);
        } else {
            assert(p2[k1] == perm[o1]);
        }
    }
    assert forall|k1: int, k2: int| 0 <= k1 < k2 < i + 1 implies #[trigger] r2[k1].4 >= #[trigger] r2[k2].4 by {
        if k1 < pos && k2 < pos {
            assert(r2[k1] == r[k1] && r2[k2] == r[k2]);
        } else if k1 > pos {
            assert(r2[k1] == r[k1 - 1] && r2[k2] == r[k2 - 1]);
        } else if k1 < pos && k2 > pos {
            assert(r2[k1] == r[k1] && r2[k2] == r[k2 - 1]);
        } else if k1 < pos && k2 == pos {
            assert(r2[k1] == r[k1] && r2[k2] == s[i]);
        } else {
            assert(r2[k1] == s[i] && r2[k2] == r[k2 - 1]);
            if k2 - 1 > pos {
                assert(r[pos].4 >= r[k2 - 1].4);
            }
        }
    }
    assert forall|k1: int, k2: int| 0 <= k1 < k2 < i + 1 && #[trigger] r2[k1].4 == #[trigger] r2[k2].4 implies p2[k1]
        < p2[k2] by {
        if k1 < pos && k2 < pos {
            assert(r2[k1] == r[k1] && r2[k2] == r[k2]);
            assert(p2[k1] == perm[k1] && p2[k2] == perm[k2]);
        } else if k1 > pos {
            assert(r2[k1] == r[k1 - 1] && r2[k2] == r[k2 - 1]);
            assert(p2[k1] == perm[k1 - 1] && p2[k2] == perm[k2 - 1]);
        } else if k1 < pos && k2 > pos {
            assert(r2[k1] == r[k1] && r2[k2] == r[k2 - 1]);
            assert(p2[k1] == perm[k1] && p2[k2] == perm[k2 - 1]);
        } else if k1 < pos && k2 == pos {
            assert(p2[k1] == perm[k1] && p2[k2] == i);
        } else {
            assert(r2[k1] == s[i] && r2[k2] == r[k2 - 1]);
            if k2 - 1 > pos {
                assert(r[pos].4 >= r[k2 - 1].4);
            }
        }
    }
}

/// The history: an entry for each event (its identifier, name, administrator, number of
/// participants and creation time), newest first, events created at the same time in their
/// order in the database.
pub fn history_entries(events: &Vec<Event>) -> (r: Vec<HistoryEntry>)
    ensures
        newest_first(events@.map_values(|e: Event| event_entry(e)), r@.map_values(|e: HistoryEntry| entry_view(e))),
{
    let ghost s = events@.map_values(|e: Event| event_entry(e));
    let mut r: Vec<HistoryEntry> = Vec::new();
    let ghost mut perm: Seq<int> = Seq::empty();
    let mut i: usize = 0;
    while i < events.len()
        invariant
            i <= events.len(),
            s == events@.map_values(|e: Event| event_entry(e)),
            sort_inv(s, r@.map_values(|e: HistoryEntry| entry_view(e)), perm, i as int),
        decreases events.len() - i,
    {
        let e = &events[i];
        let x = HistoryEntry {
            id: e.id.clone(),
            name: e.name.clone(),
            admin_mail: e.admin_mail.clone(),
            num_participants: e.participants.len(),
            creation_time: e.creation_time,
        };
        assert(entry_view(x) == s[i as int]);
        let mut pos: usize = 0;
        while pos < r.len() && r[pos].creation_time >= x.creation_time
            invariant
                pos <= r.len(),
                entry_view(x) == s[i as int],
                forall|k: int| 0 <= k < pos ==> (#[trigger] r@[k]).creation_time >= x.creation_time,
            decreases r.len() - pos,
        {
            pos = pos + 1;
        }
        let ghost before = r@.map_values(|e: HistoryEntry| entry_view(e));
        proof {
            lemma_insert_sorted(s, before, perm, i as int, pos as int);
            perm = perm.insert(pos as int, i as int);
        }
        r.insert(pos, x);
        assert(r@.map_values(|e: HistoryEntry| entry_view(e)) =~= before.insert(pos as int, s[i as int]));
        i = i + 1;
    }
    proof {
        let rv = r@.map_values(|e: HistoryEntry| entry_view(e));
        assert(is_permutation(perm, s.len() as int));
        assert forall|k1: int, k2: int| 0 <= k1 < k2 < rv.len() implies rv[k1].4 >= rv[k2].4 by {
            assert(rv[k1].4 >= rv[k2].4);
        }
        assert forall|k1: int, k2: int| 0 <= k1 < k2 < rv.len() && rv[k1].4 == rv[k2].4 implies perm[k1] < perm[k2] by {
            assert(rv[k1].4 == rv[k2].4);
        }
    }
    r
}

/// The history asked for with `password`: refused (nothing) unless the password is the
/// configured one, else the entries of `history_entries`.
pub fn history_for(password: &str, config: &Config, events: &Vec<Event>) -> (r: Option<Vec<HistoryEntry>>)
    ensures
        r is Some <==> password@ == config.history_password@,
        r matches Some(h) ==> newest_first(
            events@.map_values(|e: Event| event_entry(e)),
            h@.map_values(|e: HistoryEntry| entry_view(e)),
        ),
{
    if !str_eq(password, config.history_password.as_str()) {
        return None;
    }
    Some(history_entries(events))
}

} // verus!
