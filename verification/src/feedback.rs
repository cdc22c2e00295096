//! Toast notifications: the list of shown toasts, which of them go away by themselves, and
//! how each kind looks.
use vstd::prelude::*;
use crate::text::str_eq;

verus! {

#[derive(Clone, Copy, Debug, PartialEq, Eq, Structural)]
pub enum ToastKind {
    Success,
    Error,
    Info,
}

#[derive(Clone, Debug)]
pub struct Toast {
    pub id: u32,
    pub title: String,
    pub message: String,
    pub kind: ToastKind,
}

/// The CSS class of each kind.
pub open spec fn kind_class(k: ToastKind) -> Seq<char> {
    match k {
        ToastKind::Success => "success"@,
        ToastKind::Error => "error"@,
        ToastKind::Info => "info"@,
    }
}

impl ToastKind {
    /// The CSS class that styles a toast of this kind.
    pub fn css_class(&self) -> (c: &'static str)
        ensures
            c@ == kind_class(*self),
    {
        match self {
            ToastKind::Success => "success",
            ToastKind::Error => "error",
            ToastKind::Info => "info",
        }
    }
}

/// A toast's identifier, title, message and kind.
pub open spec fn toast_view(t: Toast) -> (u32, Seq<char>, Seq<char>, ToastKind) {
    (t.id, t.title@, t.message@, t.kind)
}

pub open spec fn toasts_view(ts: Seq<Toast>) -> Seq<(u32, Seq<char>, Seq<char>, ToastKind)> {
    ts.map_values(|t: Toast| toast_view(t))
}

/// Shows a new toast after the others; errors stay until closed, other kinds go away by
/// themselves, which the result tells.
pub fn add_toast(toasts: &mut Vec<Toast>, id: u32, title: &str, message: &str, kind: ToastKind) -> (auto_dismiss:
    bool)
    ensures
        toasts_view(final(toasts)@) == toasts_view(old(toasts)@).push((id, title@, message@, kind)),
        auto_dismiss == (kind != ToastKind::Error),
{
    let ghost before = toasts_view(toasts@);
    let t = Toast { id, title: String::from_str(title), message: String::from_str(message), kind };
    toasts.push(t);
    assert(toasts_view(toasts@) =~= before.push((id, title@, message@, kind)));
    kind != ToastKind::Error
}

/// Removes the toasts with identifier `id`, keeping the others in order.
pub fn dismiss_toast(toasts: &mut Vec<Toast>, id: u32)
    ensures
        final(toasts)@ == old(toasts)@.filter(|t: Toast| t.id != id),
{
    let ghost start = toasts@;
    let total = toasts.len();
    let mut rest: Vec<Toast> = Vec::new();
    std::mem::swap(toasts, &mut rest);
    let mut i: usize = 0;
    assert(start.skip(0) =~= start);
    assert(start.take(0).filter(|t: Toast| t.id != id) =~= Seq::<Toast>::empty()) by {
        reveal_with_fuel(Seq::filter, 1);
    }
    while rest.len() > 0
        invariant
            i + rest.len() == start.len(),
            start.len() == total,
            rest@ == start.skip(i as int),
            toasts@ == start.take(i as int).filter(|t: Toast| t.id != id),
        decreases rest.len(),
    {
        let t = rest.remove(0);
        proof {
            reveal_with_fuel(Seq::filter, 1);
            assert(start.take(i + 1).drop_last() =~= start.take(i as int));
            assert(start.take(i + 1).last() == t);
            assert(rest@ =~= start.skip(i + 1));
        }
        if t.id != id {
            toasts.push(t);
        }
        i = i + 1;
    }
    assert(start.take(start.len() as int) =~= start);
}

/// The kind of a toast that the server asks for: `success`, `error`, or else information.
pub open spec fn message_kind(msg_type: Seq<char>) -> ToastKind {
    if msg_type == "success"@ {
        ToastKind::Success
    } else if msg_type == "error"@ {
        ToastKind::Error
    } else {
        ToastKind::Info
    }
}

/// The kind of a feedback toast from the server's message type.
pub fn feedback_kind(msg_type: &str) -> (k: ToastKind)
    ensures
        k == message_kind(msg_type@),
{
    if str_eq(msg_type, "success") {
        ToastKind::Success
    } else if str_eq(msg_type, "error") {
        ToastKind::Error
    } else {
        ToastKind::Info
    }
}

} // verus!
