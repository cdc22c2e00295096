//! Writing data back as text: the editor text of an event, and the report of an assignment.
use vstd::prelude::*;
use vstd::utf8::encode_utf8;
use crate::model::{Slot, Participant, status_label};
use crate::text::{
    string_from_chars, push_str, push_chars, spaces, pad_right, pad_left, quote, push_spaces, push_pad_right,
    push_pad_left, push_quoted, chars_of,
};
use crate::numbers::{dec, dec_int, push_decimal, push_signed};

verus! {

/// The wish of participant `pi` for slot `i`.
pub open spec fn wish_at(ps: Seq<(String, Vec<i32>)>, pi: int, i: int) -> int {
    ps[pi].1@[i] as int
}

/// Sum of the squared wishes of the first `k` participants for the slots they got.
pub open spec fn score(ps: Seq<(String, Vec<i32>)>, result: Seq<usize>, k: int) -> int
    decreases k,
{
    if k <= 0 {
        0
    } else {
        score(ps, result, k - 1) + wish_at(ps, k - 1, result[k - 1] as int) * wish_at(ps, k - 1, result[k - 1] as int)
    }
}

pub open spec fn opt_max(a: Option<int>, b: int) -> Option<int> {
    match a {
        Some(x) => Some(if x < b { b } else { x }),
        None => Some(b),
    }
}

/// The largest value of `s` joined with `acc`.
pub open spec fn max_values(acc: Option<int>, s: Seq<i32>) -> Option<int>
    decreases s.len(),
{
    if s.len() == 0 {
        acc
    } else {
        opt_max(max_values(acc, s.drop_last()), s.last() as int)
    }
}

/// The largest wish value of the first `k` participants, if any.
pub open spec fn max_all(ps: Seq<(String, Vec<i32>)>, k: int) -> Option<int>
    decreases k,
{
    if k <= 0 {
        None
    } else {
        max_values(max_all(ps, k - 1), ps[k - 1].1@)
    }
}

/// The largest wish value of all participants, 0 when there is none.
pub open spec fn max_wish(ps: Seq<(String, Vec<i32>)>) -> int {
    match max_all(ps, ps.len() as int) {
        Some(m) => m,
        None => 0,
    }
}

/// Among the first `k` participants, those put in slot `i`.
pub open spec fn count_in_slot(result: Seq<usize>, i: int, k: int) -> nat
    decreases k,
{
    if k <= 0 {
        0
    } else {
        count_in_slot(result, i, k - 1) + if result[k - 1] == i { 1nat } else { 0nat }
    }
}

/// Among the first `k` participants, those put in slot `i` with wish `w` for it.
pub open spec fn count_choice(ps: Seq<(String, Vec<i32>)>, result: Seq<usize>, i: int, w: int, k: int) -> nat
    decreases k,
{
    if k <= 0 {
        0
    } else {
        count_choice(ps, result, i, w, k - 1) + if result[k - 1] == i && wish_at(ps, k - 1, i) == w {
            1nat
        } else {
            0nat
        }
    }
}

/// Among the first `k` participants, those put in a slot below `bound` with wish `w` for it.
pub open spec fn count_total(ps: Seq<(String, Vec<i32>)>, result: Seq<usize>, w: int, bound: int, k: int) -> nat
    decreases k,
{
    if k <= 0 {
        0
    } else {
        count_total(ps, result, w, bound, k - 1) + if result[k - 1] < bound && wish_at(
            ps,
            k - 1,
            result[k - 1] as int,
        ) == w {
            1nat
        } else {
            0nat
        }
    }
}

/// For each wish value `0..=m`, the participants put in slot `i` with that wish.
pub open spec fn choices(ps: Seq<(String, Vec<i32>)>, result: Seq<usize>, i: int, m: int) -> Seq<int> {
    Seq::new((m + 1) as nat, |w: int| count_choice(ps, result, i, w, result.len() as int) as int)
}

/// For each wish value `0..=m`, the participants who got a slot with that wish.
pub open spec fn totals(ps: Seq<(String, Vec<i32>)>, result: Seq<usize>, m: int, bound: int) -> Seq<int> {
    Seq::new((m + 1) as nat, |w: int| count_total(ps, result, w, bound, result.len() as int) as int)
}

/// Each count right-aligned in a column of width 5.
pub open spec fn cells(cs: Seq<int>) -> Seq<char>
    decreases cs.len(),
{
    if cs.len() == 0 {
        Seq::empty()
    } else {
        cells(cs.drop_last()) + " "@ + pad_left(dec(cs.last() as nat), 5)
    }
}

/// Column headers `w=0` .. `w=k-1`.
pub open spec fn wish_headers(k: int) -> Seq<char>
    decreases k,
{
    if k <= 0 {
        Seq::empty()
    } else {
        wish_headers(k - 1) + " "@ + pad_left("w="@ + dec((k - 1) as nat), 5)
    }
}

/// `k` separator columns.
pub open spec fn separators(k: int) -> Seq<char>
    decreases k,
{
    if k <= 0 {
        Seq::empty()
    } else {
        separators(k - 1) + "   ==="@
    }
}

/// The statistics lines of the first `k` slots.
pub open spec fn slot_stats(slots: Seq<Slot>, ps: Seq<(String, Vec<i32>)>, result: Seq<usize>, m: int, k: int) -> Seq<
    char,
>
    decreases k,
{
    if k <= 0 {
        Seq::empty()
    } else {
        slot_stats(slots, ps, result, m, k - 1) + pad_right(quote(slots[k - 1].name@), 30) + " "@ + pad_left(
            dec(count_in_slot(result, k - 1, result.len() as int)),
            5,
        ) + cells(choices(ps, result, k - 1, m)) + "\n"@
    }
}

/// The result lines of the first `k` participants.
pub open spec fn result_lines(slots: Seq<Slot>, ps: Seq<(String, Vec<i32>)>, result: Seq<usize>, k: int) -> Seq<char>
    decreases k,
{
    if k <= 0 {
        Seq::empty()
    } else {
        let si = result[k - 1] as int;
        result_lines(slots, ps, result, k - 1) + pad_right(quote(ps[k - 1].0@), 35) + " "@ + pad_right(
            quote(slots[si].name@),
            30,
        ) + " "@ + pad_left(dec((si + 1) as nat), 5) + " "@ + pad_left(dec_int(wish_at(ps, k - 1, si)), 5) + "\n"@
    }
}

/// The report of an assignment: the total score, per-slot statistics and each participant's slot.
pub open spec fn report(slots: Seq<Slot>, ps: Seq<(String, Vec<i32>)>, result: Seq<usize>) -> Seq<char> {
    let n = result.len() as int;
    let m = max_wish(ps);
    "[statistics]\n"@ + "\"total score\" "@ + dec_int(score(ps, result, n)) + "\n\n"@
        + pad_right("% slot name"@, 30) + " "@ + pad_left("# ptc"@, 5) + wish_headers(m + 1) + "\n"@
        + slot_stats(slots, ps, result, m, slots.len() as int)
        + pad_right("% ==="@, 30) + " "@ + pad_left("==="@, 5) + separators(m + 1) + "\n"@
        + pad_right("\"total\""@, 30) + " "@ + pad_left(dec(ps.len()), 5) + cells(totals(ps, result, m, slots.len() as int))
        + "\n"@ + "\n[results]\n"@
        + pad_right("% mail"@, 35) + " "@ + pad_right("slot name"@, 30) + " "@ + pad_left("slot#"@, 5) + " "@
        + pad_left("wish"@, 5) + "\n"@
        + result_lines(slots, ps, result, n)
}

/// The inputs a report can be written for: every participant with a result got a slot that
/// exists and that they have a wish for, the largest wish is not negative, and the score fits.
pub open spec fn reportable(slots: Seq<Slot>, ps: Seq<(String, Vec<i32>)>, result: Seq<usize>) -> bool {
    &&& result.len() <= ps.len()
    &&& forall|pi: int| 0 <= pi < result.len() ==> #[trigger] result[pi] < slots.len() && result[pi] < ps[pi].1@.len()
    &&& max_wish(ps) >= 0
    &&& score(ps, result, result.len() as int) <= i64::MAX
}

proof fn lemma_score_monotone(ps: Seq<(String, Vec<i32>)>, result: Seq<usize>, j: int, k: int)
    requires
        0 <= j <= k,
    ensures
        0 <= score(ps, result, j) <= score(ps, result, k),
    decreases k,
{
    if k > j {
        lemma_score_monotone(ps, result, j, k - 1);
        let w = wish_at(ps, k - 1, result[k - 1] as int);
        assert(w * w >= 0) by (nonlinear_arith);
    } else if k > 0 {
        lemma_score_monotone(ps, result, 0, k - 1);
        let w = wish_at(ps, k - 1, result[k - 1] as int);
        assert(w * w >= 0) by (nonlinear_arith);
    }
}

proof fn lemma_count_in_slot_le(result: Seq<usize>, i: int, k: int)
    requires
        0 <= k,
    ensures
        count_in_slot(result, i, k) <= k,
    decreases k,
{
    if k > 0 {
        lemma_count_in_slot_le(result, i, k - 1);
    }
}

proof fn lemma_count_choice_le(ps: Seq<(String, Vec<i32>)>, result: Seq<usize>, i: int, w: int, k: int)
    requires
        0 <= k,
    ensures
        count_choice(ps, result, i, w, k) <= k,
    decreases k,
{
    if k > 0 {
        lemma_count_choice_le(ps, result, i, w, k - 1);
    }
}

proof fn lemma_count_total_le(ps: Seq<(String, Vec<i32>)>, result: Seq<usize>, w: int, b: int, k: int)
    requires
        0 <= k,
    ensures
        count_total(ps, result, w, b, k) <= k,
    decreases k,
{
    if k > 0 {
        lemma_count_total_le(ps, result, w, b, k - 1);
    }
}

proof fn lemma_count_choice_mono(ps: Seq<(String, Vec<i32>)>, result: Seq<usize>, i: int, w: int, j: int, k: int)
    requires
        0 <= j <= k,
    ensures
        count_choice(ps, result, i, w, j) <= count_choice(ps, result, i, w, k),
    decreases k,
{
    if k > j {
        lemma_count_choice_mono(ps, result, i, w, j, k - 1);
    }
}

proof fn lemma_count_total_none(ps: Seq<(String, Vec<i32>)>, result: Seq<usize>, w: int, k: int)
    requires
        0 <= k,
    ensures
        count_total(ps, result, w, 0, k) == 0,
    decreases k,
{
    if k > 0 {
        lemma_count_total_none(ps, result, w, k - 1);
    }
}

/// Counting slot `i` after the slots below it counts the slots below `i + 1`.
proof fn lemma_count_total_step(ps: Seq<(String, Vec<i32>)>, result: Seq<usize>, w: int, i: int, k: int)
    requires
        0 <= k,
    ensures
        count_total(ps, result, w, i, k) + count_choice(ps, result, i, w, k) == count_total(ps, result, w, i + 1, k),
    decreases k,
{
    if k > 0 {
        lemma_count_total_step(ps, result, w, i, k - 1);
    }
}

fn push_cells(out: &mut Vec<char>, cs: &Vec<usize>)
    ensures
        final(out)@ == old(out)@ + cells(cs@.map_values(|c: usize| c as int)),
{
    let ghost start = out@;
    let ghost cv = cs@.map_values(|c: usize| c as int);
    let mut k: usize = 0;
    assert(cv.take(0) =~= Seq::<int>::empty());
    while k < cs.len()
        invariant
            k <= cs.len(),
            cv == cs@.map_values(|c: usize| c as int),
            out@ == start + cells(cv.take(k as int)),
        decreases cs.len() - k,
    {
        push_str(out, " ");
        let mut d: Vec<char> = Vec::new();
        push_decimal(&mut d, cs[k] as u64);
        push_pad_left(out, d.as_slice(), 5);
        assert(cv.take(k + 1).drop_last() =~= cv.take(k as int));
        assert(out@ =~= start + cells(cv.take(k + 1)));
        k = k + 1;
    }
    assert(cv.take(cs.len() as int) =~= cv);
}

/// The largest wish value, 0 when there is none.
fn largest_wish(participants: &[(String, Vec<i32>)]) -> (m: i32)
    ensures
        m == max_wish(participants@),
{
    let ghost ps = participants@;
    let mut best: Option<i32> = None;
    let mut k: usize = 0;
    while k < participants.len()
        invariant
            k <= participants.len(),
            ps == participants@,
            match best {
                Some(b) => max_all(ps, k as int) == Some(b as int),
                None => max_all(ps, k as int) is None,
            },
        decreases participants.len() - k,
    {
        let w = &participants[k].1;
        let ghost acc0 = max_all(ps, k as int);
        let mut j: usize = 0;
        while j < w.len()
            invariant
                j <= w.len(),
                w@ == ps[k as int].1@,
                match best {
                    Some(b) => max_values(acc0, w@.take(j as int)) == Some(b as int),
                    None => max_values(acc0, w@.take(j as int)) is None,
                },
            decreases w.len() - j,
        {
            assert(w@.take(j + 1).drop_last() =~= w@.take(j as int));
            let v = w[j];
            best = match best {
                Some(b) => Some(if b < v { v } else { b }),
                None => Some(v),
            };
            j = j + 1;
        }
        assert(w@.take(w.len() as int) =~= w@);
        k = k + 1;
    }
    match best {
        Some(b) => b,
        None => 0,
    }
}

/// Formats the results of an assignment: total score, per-slot statistics and the slot of
/// each participant.
pub fn format_results(slots: &[Slot], participants: &[(String, Vec<i32>)], result: &[usize]) -> (text: String)
    requires
        reportable(slots@, participants@, result@),
    ensures
        text@ == report(slots@, participants@, result@),
{
    let ghost ps = participants@;
    let ghost rs = result@;
    let ghost sl = slots@;
    let n = result.len();
    // Total score.
    let mut score_acc: i64 = 0;
    let mut k: usize = 0;
    while k < n
        invariant
            k <= n,
            n == result.len(),
            rs == result@,
            ps == participants@,
            reportable(sl, ps, rs),
            score_acc == score(ps, rs, k as int),
        decreases n - k,
    {
        let si = result[k];
        assert(si < participants[k as int].1@.len());
        let w = participants[k].1[si] as i64;
        proof {
            lemma_score_monotone(ps, rs, k + 1, n as int);
            assert(score(ps, rs, k + 1) == score(ps, rs, k as int) + w * w);
            assert(0 <= w * w <= 0x4000_0000_0000_0000) by (nonlinear_arith)
                requires
                    -0x8000_0000 <= w <= 0x8000_0000,
            ;
        }
        score_acc = score_acc + w * w;
        k = k + 1;
    }
    let mut out: Vec<char> = Vec::new();
    push_str(&mut out, "[statistics]\n");
    push_str(&mut out, "\"total score\" ");
    push_signed(&mut out, score_acc);
    push_str(&mut out, "\n\n");
    let mw = largest_wish(participants);
    let m = mw as usize;
    let ghost mi = m as int;
    // Header of the statistics.
    let h1 = chars_of("% slot name");
    push_pad_right(&mut out, h1.as_slice(), 30);
    push_str(&mut out, " ");
    let h2 = chars_of("# ptc");
    push_pad_left(&mut out, h2.as_slice(), 5);
    let ghost before_headers = out@;
    let mut w: usize = 0;
    while w <= m
        invariant
            w <= m + 1,
            m <= i32::MAX,
            out@ == before_headers + wish_headers(w as int),
        decreases m + 1 - w,
    {
        push_str(&mut out, " ");
        let mut label: Vec<char> = Vec::new();
        push_str(&mut label, "w=");
        push_decimal(&mut label, w as u64);
        push_pad_left(&mut out, label.as_slice(), 5);
        assert(out@ =~= before_headers + wish_headers(w + 1));
        w = w + 1;
    }
    push_str(&mut out, "\n");
    // One line per slot.
    let mut total: Vec<usize> = Vec::new();
    let mut w: usize = 0;
    while w <= m
        invariant
            w <= m + 1,
            m <= i32::MAX,
            total.len() == w,
            forall|t: int| 0 <= t < w ==> #[trigger] total@[t] == 0,
        decreases m + 1 - w,
    {
        total.push(0);
        w = w + 1;
    }
    let ghost before_stats = out@;
    proof {
        assert forall|t: int| 0 <= t <= m implies #[trigger] total@[t] == count_total(ps, rs, t, 0, n as int) by {
            lemma_count_total_none(ps, rs, t, n as int);
        }
    }
    let mut i: usize = 0;
    while i < slots.len()
        invariant
            i <= slots.len(),
            n == result.len(),
            rs == result@,
            ps == participants@,
            sl == slots@,
            mi == m,
            mi == max_wish(ps),
            m <= i32::MAX,
            reportable(sl, ps, rs),
            total.len() == m + 1,
            forall|t: int| 0 <= t <= m ==> #[trigger] total@[t] == count_total(ps, rs, t, i as int, n as int),
            out@ == before_stats + slot_stats(sl, ps, rs, mi, i as int),
        decreases slots.len() - i,
    {
        let mut slot_choices: Vec<usize> = Vec::new();
        let mut w: usize = 0;
        while w <= m
            invariant
                w <= m + 1,
                m <= i32::MAX,
                slot_choices.len() == w,
                forall|t: int| 0 <= t < w ==> #[trigger] slot_choices@[t] == 0,
            decreases m + 1 - w,
        {
            slot_choices.push(0);
            w = w + 1;
        }
        let mut count: usize = 0;
        let mut pi: usize = 0;
        while pi < n
            invariant
                pi <= n,
                i < slots.len(),
                n == result.len(),
                rs == result@,
                ps == participants@,
                m <= i32::MAX,
                reportable(sl, ps, rs),
                total.len() == m + 1,
                slot_choices.len() == m + 1,
                count == count_in_slot(rs, i as int, pi as int),
                forall|t: int| 0 <= t <= m ==> #[trigger] slot_choices@[t] == count_choice(ps, rs, i as int, t, pi as int),
                forall|t: int|
                    0 <= t <= m ==> #[trigger] total@[t] == count_total(ps, rs, t, i as int, n as int) + count_choice(
                        ps,
                        rs,
                        i as int,
                        t,
                        pi as int,
                    ),
            decreases n - pi,
        {
            proof {
                lemma_count_in_slot_le(rs, i as int, pi as int);
                assert forall|t: int| 0 <= t <= m implies count_choice(ps, rs, i as int, t, pi as int) <= pi
                    && count_total(ps, rs, t, i as int, n as int) <= n by {
                    lemma_count_choice_le(ps, rs, i as int, t, pi as int);
                    lemma_count_total_le(ps, rs, t, i as int, n as int);
                }
            }
            if result[pi] == i {
                assert(i < participants[pi as int].1@.len());
                let wv = participants[pi].1[i];
                if wv >= 0 && (wv as usize) <= m {
                    let wu = wv as usize;
                    proof {
                        lemma_count_choice_mono(ps, rs, i as int, wu as int, pi + 1, n as int);
                        lemma_count_total_step(ps, rs, wu as int, i as int, n as int);
                        lemma_count_total_le(ps, rs, wu as int, i + 1, n as int);
                        lemma_count_choice_le(ps, rs, i as int, wu as int, pi + 1);
                    }
                    let ghost sc = slot_choices@;
                    let ghost tt = total@;
                    slot_choices.set(wu, slot_choices[wu] + 1);
                    total.set(wu, total[wu] + 1);
                    assert forall|t: int| 0 <= t <= m implies #[trigger] slot_choices@[t] == count_choice(
                        ps,
                        rs,
                        i as int,
                        t,
                        pi + 1,
                    ) by {
                        if t != wu {
                            assert(slot_choices@[t] == sc[t]);
                        }
                    }
                    assert forall|t: int| 0 <= t <= m implies #[trigger] total@[t] == count_total(
                        ps,
                        rs,
                        t,
                        i as int,
                        n as int,
                    ) + count_choice(ps, rs, i as int, t, pi + 1) by {
                        if t != wu {
                            assert(total@[t] == tt[t]);
                        }
                    }
                }
                count = count + 1;
            }
            pi = pi + 1;
        }
        push_quoted_padded(&mut out, slots[i].name.as_str(), 30);
        push_str(&mut out, " ");
        let mut d: Vec<char> = Vec::new();
        push_decimal(&mut d, count as u64);
        push_pad_left(&mut out, d.as_slice(), 5);
        assert(slot_choices@.map_values(|c: usize| c as int) =~= choices(ps, rs, i as int, mi));
        push_cells(&mut out, &slot_choices);
        push_str(&mut out, "\n");
        proof {
            assert forall|t: int| 0 <= t <= m implies #[trigger] total@[t] == count_total(ps, rs, t, i + 1, n as int) by {
                lemma_count_total_step(ps, rs, t, i as int, n as int);
            }
        }
        assert(out@ =~= before_stats + slot_stats(sl, ps, rs, mi, i + 1));
        i = i + 1;
    }
    // Totals.
    let s1 = chars_of("% ===");
    push_pad_right(&mut out, s1.as_slice(), 30);
    push_str(&mut out, " ");
    let s2 = chars_of("===");
    push_pad_left(&mut out, s2.as_slice(), 5);
    let ghost before_sep = out@;
    let mut w: usize = 0;
    while w <= m
        invariant
            w <= m + 1,
            m <= i32::MAX,
            out@ == before_sep + separators(w as int),
        decreases m + 1 - w,
    {
        push_str(&mut out, "   ===");
        assert(out@ =~= before_sep + separators(w + 1));
        w = w + 1;
    }
    push_str(&mut out, "\n");
    let t1 = chars_of("\"total\"");
    push_pad_right(&mut out, t1.as_slice(), 30);
    push_str(&mut out, " ");
    let mut d: Vec<char> = Vec::new();
    push_decimal(&mut d, participants.len() as u64);
    push_pad_left(&mut out, d.as_slice(), 5);
    assert(total@.map_values(|c: usize| c as int) =~= totals(ps, rs, mi, sl.len() as int));
    push_cells(&mut out, &total);
    push_str(&mut out, "\n");
    push_str(&mut out, "\n[results]\n");
    let r1 = chars_of("% mail");
    push_pad_right(&mut out, r1.as_slice(), 35);
    push_str(&mut out, " ");
    let r2 = chars_of("slot name");
    push_pad_right(&mut out, r2.as_slice(), 30);
    push_str(&mut out, " ");
    let r3 = chars_of("slot#");
    push_pad_left(&mut out, r3.as_slice(), 5);
    push_str(&mut out, " ");
    let r4 = chars_of("wish");
    push_pad_left(&mut out, r4.as_slice(), 5);
    push_str(&mut out, "\n");
    let ghost before_results = out@;
    let mut pi: usize = 0;
    while pi < n
        invariant
            pi <= n,
            n == result.len(),
            rs == result@,
            ps == participants@,
            sl == slots@,
            reportable(sl, ps, rs),
            out@ == before_results + result_lines(sl, ps, rs, pi as int),
        decreases n - pi,
    {
        let si = result[pi];
        push_quoted_padded(&mut out, participants[pi].0.as_str(), 35);
        push_str(&mut out, " ");
        push_quoted_padded(&mut out, slots[si].name.as_str(), 30);
        push_str(&mut out, " ");
        let mut d: Vec<char> = Vec::new();
        push_decimal(&mut d, (si + 1) as u64);
        push_pad_left(&mut out, d.as_slice(), 5);
        push_str(&mut out, " ");
        let mut e: Vec<char> = Vec::new();
        assert(si < participants[pi as int].1@.len());
        push_signed(&mut e, participants[pi].1[si] as i64);
        push_pad_left(&mut out, e.as_slice(), 5);
        push_str(&mut out, "\n");
        assert(out@ =~= before_results + result_lines(sl, ps, rs, pi + 1));
        pi = pi + 1;
    }
    assert(out@ =~= report(sl, ps, rs));
    string_from_chars(out.as_slice())
}

/// Appends `s` between double quotes, padded with spaces on the right to width `w`.
fn push_quoted_padded(out: &mut Vec<char>, s: &str, w: usize)
    ensures
        final(out)@ == old(out)@ + pad_right(quote(s@), w as int),
{
    let mut q: Vec<char> = Vec::new();
    push_quoted(&mut q, s);
    assert(q@ =~= quote(s@));
    push_pad_right(out, q.as_slice(), w);
}

/// Number of bytes of `s` in UTF-8.
pub open spec fn byte_len(s: Seq<char>) -> int {
    encode_utf8(s).len() as int
}

/// Largest byte length of the quoted names of the first `k` slots (0 when there is none).
pub open spec fn slot_name_width(slots: Seq<Slot>, k: int) -> int
    decreases k,
{
    if k <= 0 {
        0
    } else {
        let w = byte_len(quote(slots[k - 1].name@));
        let rest = slot_name_width(slots, k - 1);
        if rest < w { w } else { rest }
    }
}

/// Largest byte length of the quoted mails of the first `k` participants (0 when there is none).
pub open spec fn mail_width(ps: Seq<Participant>, k: int) -> int
    decreases k,
{
    if k <= 0 {
        0
    } else {
        let w = byte_len(quote(ps[k - 1].mail@));
        let rest = mail_width(ps, k - 1);
        if rest < w { w } else { rest }
    }
}

/// The lines of the first `k` slots, names padded to `width` bytes.
pub open spec fn editor_slot_lines(slots: Seq<Slot>, width: int, k: int) -> Seq<char>
    decreases k,
{
    if k <= 0 {
        Seq::empty()
    } else {
        let s = slots[k - 1];
        editor_slot_lines(slots, width, k - 1) + quote(s.name@) + spaces(width - byte_len(quote(s.name@)) + 1) + dec(
            s.vmin as nat,
        ) + " "@ + dec(s.vmax as nat) + "  % slot #"@ + dec(k as nat) + "\n"@
    }
}

/// ` #1 #2 ... #k`.
pub open spec fn slot_numbers(k: int) -> Seq<char>
    decreases k,
{
    if k <= 0 {
        Seq::empty()
    } else {
        slot_numbers(k - 1) + " #"@ + dec(k as nat)
    }
}

/// The wish values separated by single spaces.
pub open spec fn wish_text(w: Seq<i32>) -> Seq<char>
    decreases w.len(),
{
    if w.len() == 0 {
        Seq::empty()
    } else if w.len() == 1 {
        dec_int(w[0] as int)
    } else {
        wish_text(w.drop_last()) + " "@ + dec_int(w.last() as int)
    }
}

/// The line of one participant, mail padded to `width` bytes.
pub open spec fn editor_participant_line(p: Participant, width: int) -> Seq<char> {
    quote(p.mail@) + spaces(width - byte_len(quote(p.mail@)) + 1) + wish_text(p.wish@) + "  % "@ + status_label(
        p.status,
    ) + (if p.id@.len() > 0 { "  % wish?"@ + p.id@ } else { Seq::empty() }) + "\n"@
}

pub open spec fn editor_participant_lines(ps: Seq<Participant>, width: int, k: int) -> Seq<char>
    decreases k,
{
    if k <= 0 {
        Seq::empty()
    } else {
        editor_participant_lines(ps, width, k - 1) + editor_participant_line(ps[k - 1], width)
    }
}

/// The editor text of an event's slots and participants.
pub open spec fn editor_text(slots: Seq<Slot>, ps: Seq<Participant>) -> Seq<char> {
    "[slots]\n"@ + editor_slot_lines(slots, slot_name_width(slots, slots.len() as int), slots.len() as int)
        + "\n[participants]\n"@ + "% slots:"@ + slot_numbers(slots.len() as int) + "\n"@
        + editor_participant_lines(ps, mail_width(ps, ps.len() as int), ps.len() as int)
}

/// Names and mails short enough that their quoted byte lengths are `usize` values.
pub open spec fn editor_writable(slots: Seq<Slot>, ps: Seq<Participant>) -> bool {
    &&& forall|i: int| 0 <= i < slots.len() ==> byte_len(#[trigger] slots[i].name@) + 4 <= usize::MAX
    &&& forall|i: int| 0 <= i < ps.len() ==> byte_len(#[trigger] ps[i].mail@) + 4 <= usize::MAX
}

proof fn lemma_slot_name_width(slots: Seq<Slot>, k: int, i: int)
    requires
        0 <= i < k,
    ensures
        byte_len(quote(slots[i].name@)) <= slot_name_width(slots, k),
    decreases k,
{
    if i < k - 1 {
        lemma_slot_name_width(slots, k - 1, i);
    }
}

proof fn lemma_mail_width(ps: Seq<Participant>, k: int, i: int)
    requires
        0 <= i < k,
    ensures
        byte_len(quote(ps[i].mail@)) <= mail_width(ps, k),
    decreases k,
{
    if i < k - 1 {
        lemma_mail_width(ps, k - 1, i);
    }
}

proof fn lemma_encode_concat(a: Seq<char>, b: Seq<char>)
    ensures
        encode_utf8(a + b) == encode_utf8(a) + encode_utf8(b),
    decreases a.len(),
{
    if a.len() == 0 {
        assert(a + b =~= b);
    } else {
        lemma_encode_concat(a.drop_first(), b);
        assert((a + b).drop_first() =~= a.drop_first() + b);
        assert((a + b)[0] == a[0]);
    }
}

proof fn lemma_quote_len(s: Seq<char>)
    ensures
        byte_len(quote(s)) == byte_len(s) + 2,
{
    reveal_strlit("\"");
    lemma_encode_concat("\""@ + s, "\""@);
    lemma_encode_concat("\""@, s);
    assert(encode_utf8("\""@).len() == 1) by {
        let q = "\""@;
        assert(q.len() == 1);
        assert(q[0] == '"');
        assert(('"' as u32) < 0x80);
        assert(q.drop_first() =~= Seq::<char>::empty());
        assert(encode_utf8(q.drop_first()).len() == 0);
        assert(encode_utf8(q) == vstd::utf8::encode_scalar(q[0] as u32) + encode_utf8(q.drop_first()));
    }
}

/// Byte length of `s` quoted.
fn quoted_byte_len(s: &str) -> (n: usize)
    requires
        byte_len(s@) + 4 <= usize::MAX,
    ensures
        n == byte_len(quote(s@)),
        n == byte_len(s@) + 2,
{
    proof {
        lemma_quote_len(s@);
    }
    s.len() + 2
}

fn push_participant_line(out: &mut Vec<char>, p: &Participant, w: usize, width: usize)
    requires
        w == byte_len(quote(p.mail@)),
        w <= width,
        width + 1 < usize::MAX,
    ensures
        final(out)@ == old(out)@ + editor_participant_line(*p, width as int),
{
    let ghost line_start = out@;
    push_quoted(out, p.mail.as_str());
    push_spaces(out, width - w + 1);
    let ghost wish_start = out@;
    let mut j: usize = 0;
    while j < p.wish.len()
        invariant
            j <= p.wish.len(),
            out@ == wish_start + wish_text(p.wish@.take(j as int)),
        decreases p.wish.len() - j,
    {
        assert(p.wish@.take(j + 1).drop_last() =~= p.wish@.take(j as int));
        if j > 0 {
            push_str(out, " ");
        }
        push_signed(out, p.wish[j] as i64);
        proof {
            if j == 0 {
                assert(wish_text(p.wish@.take(0)) == Seq::<char>::empty());
            }
        }
        assert(out@ =~= wish_start + wish_text(p.wish@.take(j + 1)));
        j = j + 1;
    }
    assert(p.wish@.take(p.wish.len() as int) =~= p.wish@);
    push_str(out, "  % ");
    push_str(out, p.status.label());
    let ghost before_id = out@;
    if !p.id.as_str().is_empty() {
        push_str(out, "  % wish?");
        push_str(out, p.id.as_str());
    }
    assert(out@ =~= before_id + (if p.id@.len() > 0 { "  % wish?"@ + p.id@ } else { Seq::empty() }));
    push_str(out, "\n");
    assert(out@ =~= line_start + editor_participant_line(*p, width as int));
}

/// Converts an event's slots and participants back into the editor text format. Names and
/// mails are padded so that the columns line up (widths counted in bytes); participants with
/// an empty `id` have no `% wish?` marker.
pub fn to_editor_text(slots: &[Slot], participants: &[Participant]) -> (text: String)
    requires
        editor_writable(slots@, participants@),
    ensures
        text@ == editor_text(slots@, participants@),
{
    let ghost sl = slots@;
    let ghost ps = participants@;
    let mut out: Vec<char> = Vec::new();
    push_str(&mut out, "[slots]\n");
    let mut width: usize = 0;
    let mut i: usize = 0;
    while i < slots.len()
        invariant
            i <= slots.len(),
            sl == slots@,
            editor_writable(sl, ps),
            width == slot_name_width(sl, i as int),
            width + 1 < usize::MAX,
        decreases slots.len() - i,
    {
        assert(byte_len(sl[i as int].name@) + 4 <= usize::MAX);
        let w = quoted_byte_len(slots[i].name.as_str());
        if width < w {
            width = w;
        }
        i = i + 1;
    }
    proof {
        assert forall|k: int| 0 <= k < slots.len() implies byte_len(quote(#[trigger] sl[k].name@)) <= width by {
            lemma_slot_name_width(sl, slots.len() as int, k);
        }
    }
    let ghost start = out@;
    let mut i: usize = 0;
    while i < slots.len()
        invariant
            i <= slots.len(),
            sl == slots@,
            editor_writable(sl, ps),
            width == slot_name_width(sl, slots.len() as int),
            width + 1 < usize::MAX,
            forall|k: int| 0 <= k < slots.len() ==> byte_len(quote(#[trigger] sl[k].name@)) <= width,
            out@ == start + editor_slot_lines(sl, width as int, i as int),
        decreases slots.len() - i,
    {
        let s = &slots[i];
        assert(byte_len(sl[i as int].name@) + 4 <= usize::MAX);
        let w = quoted_byte_len(s.name.as_str());
        assert(w <= width);
        push_quoted(&mut out, s.name.as_str());
        push_spaces(&mut out, width - w + 1);
        push_decimal(&mut out, s.vmin as u64);
        push_str(&mut out, " ");
        push_decimal(&mut out, s.vmax as u64);
        push_str(&mut out, "  % slot #");
        push_decimal(&mut out, (i + 1) as u64);
        push_str(&mut out, "\n");
        assert(out@ =~= start + editor_slot_lines(sl, width as int, i + 1));
        i = i + 1;
    }
    push_str(&mut out, "\n[participants]\n");
    push_str(&mut out, "% slots:");
    let ghost start = out@;
    let mut i: usize = 0;
    while i < slots.len()
        invariant
            i <= slots.len(),
            out@ == start + slot_numbers(i as int),
        decreases slots.len() - i,
    {
        push_str(&mut out, " #");
        push_decimal(&mut out, (i + 1) as u64);
        assert(out@ =~= start + slot_numbers(i + 1));
        i = i + 1;
    }
    push_str(&mut out, "\n");
    let mut width: usize = 0;
    let mut i: usize = 0;
    while i < participants.len()
        invariant
            i <= participants.len(),
            ps == participants@,
            editor_writable(sl, ps),
            width == mail_width(ps, i as int),
            width + 1 < usize::MAX,
        decreases participants.len() - i,
    {
        assert(byte_len(ps[i as int].mail@) + 4 <= usize::MAX);
        let w = quoted_byte_len(participants[i].mail.as_str());
        if width < w {
            width = w;
        }
        i = i + 1;
    }
    proof {
        assert forall|k: int| 0 <= k < participants.len() implies byte_len(quote(#[trigger] ps[k].mail@)) <= width by {
            lemma_mail_width(ps, participants.len() as int, k);
        }
    }
    let ghost start = out@;
    let mut i: usize = 0;
    while i < participants.len()
        invariant
            i <= participants.len(),
            ps == participants@,
            editor_writable(sl, ps),
            width == mail_width(ps, participants.len() as int),
            width + 1 < usize::MAX,
            forall|k: int| 0 <= k < participants.len() ==> byte_len(quote(#[trigger] ps[k].mail@)) <= width,
            out@ == start + editor_participant_lines(ps, width as int, i as int),
        decreases participants.len() - i,
    {
        let p = &participants[i];
        assert(byte_len(ps[i as int].mail@) + 4 <= usize::MAX);
        let w = quoted_byte_len(p.mail.as_str());
        assert(w <= width);
        push_participant_line(&mut out, p, w, width);
        assert(out@ =~= start + editor_participant_lines(ps, width as int, i + 1));
        i = i + 1;
    }
    assert(out@ =~= editor_text(sl, ps));
    string_from_chars(out.as_slice())
}

} // verus!
