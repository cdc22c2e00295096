//! The report of an assignment read line by line, and the results read back from it: the
//! results that are mailed are each participant's mail and the name of the slot they got, in
//! order.
use vstd::prelude::*;
use crate::model::Slot;
use crate::text::{
    is_ws, trim, trim_start, trim_end, lines, strip_cr, spaces, pad_right, pad_left, quote, lemma_find_char,
    lemma_trim_start_skip,
};
use crate::numbers::{dec, dec_int, is_digit, lemma_dec_digits};
use crate::parse::quoted;
use crate::format::{
    report, reportable, score, max_wish, count_in_slot, choices, totals, cells, wish_headers, separators, slot_stats,
    result_lines, wish_at,
};
use crate::client::result_entries;
use crate::editor::{lacks, lemma_lacks_concat, joined, lemma_joined_concat, lemma_lines_joined, lemma_trim_end_shape};

verus! {

/// `s` holds neither a newline nor a carriage return.
pub open spec fn one_line(s: Seq<char>) -> bool {
    lacks(s, '\n') && lacks(s, '\r')
}

proof fn lemma_one_line_concat(a: Seq<char>, b: Seq<char>)
    requires
        one_line(a),
        one_line(b),
    ensures
        one_line(a + b),
{
    lemma_lacks_concat(a, b, '\n');
    lemma_lacks_concat(a, b, '\r');
}

proof fn lemma_spaces_one_line(k: int)
    ensures
        one_line(spaces(k)),
        forall|i: int| 0 <= i < spaces(k).len() ==> is_ws(#[trigger] spaces(k)[i]),
{
}

proof fn lemma_dec_one_line(n: nat)
    ensures
        one_line(dec(n)),
        dec(n).len() > 0,
        !is_ws(dec(n).last()),
        lacks(dec(n), '"'),
{
    lemma_dec_digits(n);
    let d = dec(n);
    assert forall|k: int| 0 <= k < d.len() implies #[trigger] d[k] != '\n' && d[k] != '\r' && d[k] != '"' && !is_ws(
        d[k],
    ) by {
        assert(is_digit(d[k]));
    }
}

proof fn lemma_dec_int_one_line(i: int)
    ensures
        one_line(dec_int(i)),
        dec_int(i).len() > 0,
        !is_ws(dec_int(i).last()),
{
    if i < 0 {
        lemma_dec_one_line((-i) as nat);
        assert(one_line(seq!['-']));
        lemma_one_line_concat(seq!['-'], dec((-i) as nat));
        assert((seq!['-'] + dec((-i) as nat)).last() == dec((-i) as nat).last());
    } else {
        lemma_dec_one_line(i as nat);
    }
}

proof fn lemma_pad_left_one_line(s: Seq<char>, w: int)
    requires
        one_line(s),
    ensures
        one_line(pad_left(s, w)),
        s.len() > 0 ==> pad_left(s, w).last() == s.last(),
{
    lemma_spaces_one_line(w - s.len());
    lemma_one_line_concat(spaces(w - s.len()), s);
}

proof fn lemma_pad_right_one_line(s: Seq<char>, w: int)
    requires
        one_line(s),
    ensures
        one_line(pad_right(s, w)),
        s.len() > 0 ==> pad_right(s, w)[0] == s[0],
{
    lemma_spaces_one_line(w - s.len());
    lemma_one_line_concat(s, spaces(w - s.len()));
}

proof fn lemma_quote_one_line(s: Seq<char>)
    requires
        one_line(s),
    ensures
        one_line(quote(s)),
        quote(s).len() > 0,
        quote(s)[0] == '"',
{
    reveal_strlit("\"");
    lemma_one_line_concat("\""@, s);
    lemma_one_line_concat("\""@ + s, "\""@);
}

proof fn lemma_cells_one_line(cs: Seq<int>)
    ensures
        one_line(cells(cs)),
        cs.len() > 0 ==> !is_ws(cells(cs).last()),
    decreases cs.len(),
{
    reveal_strlit(" ");
    if cs.len() > 0 {
        lemma_cells_one_line(cs.drop_last());
        lemma_dec_one_line(cs.last() as nat);
        lemma_pad_left_one_line(dec(cs.last() as nat), 5);
        lemma_one_line_concat(cells(cs.drop_last()), " "@);
        lemma_one_line_concat(cells(cs.drop_last()) + " "@, pad_left(dec(cs.last() as nat), 5));
    }
}

proof fn lemma_wish_headers_one_line(k: int)
    ensures
        one_line(wish_headers(k)),
    decreases k,
{
    reveal_strlit(" ");
    reveal_strlit("w=");
    if k > 0 {
        lemma_wish_headers_one_line(k - 1);
        lemma_dec_one_line((k - 1) as nat);
        lemma_one_line_concat("w="@, dec((k - 1) as nat));
        lemma_pad_left_one_line("w="@ + dec((k - 1) as nat), 5);
        lemma_one_line_concat(wish_headers(k - 1), " "@);
        lemma_one_line_concat(wish_headers(k - 1) + " "@, pad_left("w="@ + dec((k - 1) as nat), 5));
    }
}

proof fn lemma_separators_one_line(k: int)
    ensures
        one_line(separators(k)),
    decreases k,
{
    reveal_strlit("   ===");
    if k > 0 {
        lemma_separators_one_line(k - 1);
        lemma_one_line_concat(separators(k - 1), "   ==="@);
    }
}

/// A line whose ends are not whitespace is its own trim.
proof fn lemma_trim_whole(s: Seq<char>)
    requires
        s.len() > 0,
        !is_ws(s[0]),
        !is_ws(s.last()),
    ensures
        trim(s) == s,
{
    assert(trim_start(s) == s);
    assert(trim_end(s) == s);
}

/// A line that starts with no whitespace keeps its first character when trimmed.
proof fn lemma_trim_head(s: Seq<char>)
    requires
        s.len() > 0,
        !is_ws(s[0]),
    ensures
        trim(s).len() > 0,
        trim(s)[0] == s[0],
{
    assert(trim_start(s) == s);
    lemma_trim_end_shape(s);
    if trim_end(s).len() == 0 {
        assert(is_ws(s[0]));
    }
}

/// The report's line for participant `k`, without its newline.
pub open spec fn result_text(slots: Seq<Slot>, ps: Seq<(String, Vec<i32>)>, result: Seq<usize>, k: int) -> Seq<char> {
    let si = result[k] as int;
    pad_right(quote(ps[k].0@), 35) + " "@ + pad_right(quote(slots[si].name@), 30) + " "@ + pad_left(
        dec((si + 1) as nat),
        5,
    ) + " "@ + pad_left(dec_int(wish_at(ps, k, si)), 5)
}

/// Text without a double quote, a newline or a carriage return.
pub open spec fn plain_name(s: Seq<char>) -> bool {
    lacks(s, '"') && lacks(s, '\n') && lacks(s, '\r')
}

/// A quoted name (with no quote in it), then `after`: the quoted string is the name.
proof fn lemma_quoted_front(name: Seq<char>, after: Seq<char>)
    requires
        lacks(name, '"'),
    ensures
        quoted(quote(name) + after) == Some((name, trim(after))),
{
    reveal_strlit("\"");
    let t = quote(name) + after;
    let rest = t.drop_first();
    assert(rest =~= name + seq!['"'] + after);
    lemma_find_char(rest, '"', name.len() as int);
    assert(rest.take(name.len() as int) =~= name);
    assert(rest.skip(name.len() + 1int) =~= after);
}

/// A result line is its own trim; it starts with the quoted mail, followed by the quoted
/// slot name, and holds no newline or carriage return.
proof fn lemma_result_text(slots: Seq<Slot>, ps: Seq<(String, Vec<i32>)>, result: Seq<usize>, k: int)
    requires
        0 <= k < result.len(),
        k < ps.len(),
        result[k] < slots.len(),
        plain_name(ps[k].0@),
        plain_name(slots[result[k] as int].name@),
    ensures
        ({
            let t = result_text(slots, ps, result, k);
            &&& one_line(t)
            &&& trim(t) == t
            &&& t.len() > 0
            &&& t[0] == '"'
            &&& quoted(t) is Some
            &&& quoted(t).unwrap().0 == ps[k].0@
            &&& quoted(quoted(t).unwrap().1) is Some
            &&& quoted(quoted(t).unwrap().1).unwrap().0 == slots[result[k] as int].name@
        }),
{
    reveal_strlit(" ");
    reveal_strlit("\"");
    let si = result[k] as int;
    let mail = ps[k].0@;
    let name = slots[si].name@;
    let t = result_text(slots, ps, result, k);
    let sp1 = spaces(35 - quote(mail).len());
    let sp2 = spaces(30 - quote(name).len());
    let d1 = pad_left(dec((si + 1) as nat), 5);
    let d2 = pad_left(dec_int(wish_at(ps, k, si)), 5);
    let tail = sp2 + seq![' '] + d1 + seq![' '] + d2;
    let after = sp1 + seq![' '] + quote(name) + tail;
    assert(t =~= quote(mail) + after);
    // One line.
    lemma_quote_one_line(mail);
    lemma_quote_one_line(name);
    lemma_spaces_one_line(35 - quote(mail).len());
    lemma_spaces_one_line(30 - quote(name).len());
    lemma_dec_one_line((si + 1) as nat);
    lemma_pad_left_one_line(dec((si + 1) as nat), 5);
    lemma_dec_int_one_line(wish_at(ps, k, si));
    lemma_pad_left_one_line(dec_int(wish_at(ps, k, si)), 5);
    assert(one_line(seq![' ']));
    lemma_one_line_concat(sp2, seq![' ']);
    lemma_one_line_concat(sp2 + seq![' '], d1);
    lemma_one_line_concat(sp2 + seq![' '] + d1, seq![' ']);
    lemma_one_line_concat(sp2 + seq![' '] + d1 + seq![' '], d2);
    lemma_one_line_concat(sp1, seq![' ']);
    lemma_one_line_concat(sp1 + seq![' '], quote(name));
    lemma_one_line_concat(sp1 + seq![' '] + quote(name), tail);
    lemma_one_line_concat(quote(mail), after);
    // Its ends.
    assert(t[0] == '"');
    assert(t.last() == d2.last());
    assert(d2.last() == dec_int(wish_at(ps, k, si)).last());
    lemma_trim_whole(t);
    // The quoted mail, then the quoted slot name.
    lemma_quoted_front(mail, after);
    let i0: int = sp1.len() as int + 1;
    assert forall|j: int| 0 <= j < i0 implies is_ws(after[j]) by {
        if j < sp1.len() {
            assert(after[j] == sp1[j]);
        }
    }
    lemma_trim_start_skip(after, i0);
    let x = after.subrange(i0, after.len() as int);
    assert(x =~= quote(name) + tail);
    assert(x[0] == '"');
    assert(trim_start(x) == x);
    assert(x.last() == d2.last());
    assert(trim_end(x) == x);
    assert(trim(after) == x);
    lemma_quoted_front(name, tail);
}

/// The statistics line of slot `k`, without its newline.
pub open spec fn stat_text(slots: Seq<Slot>, ps: Seq<(String, Vec<i32>)>, result: Seq<usize>, m: int, k: int) -> Seq<
    char,
> {
    pad_right(quote(slots[k].name@), 30) + " "@ + pad_left(dec(count_in_slot(result, k, result.len() as int)), 5)
        + cells(choices(ps, result, k, m))
}

pub open spec fn stat_texts(slots: Seq<Slot>, ps: Seq<(String, Vec<i32>)>, result: Seq<usize>, m: int, k: int) -> Seq<
    Seq<char>,
> {
    Seq::new(k as nat, |i: int| stat_text(slots, ps, result, m, i))
}

pub open spec fn result_texts(slots: Seq<Slot>, ps: Seq<(String, Vec<i32>)>, result: Seq<usize>, k: int) -> Seq<
    Seq<char>,
> {
    Seq::new(k as nat, |i: int| result_text(slots, ps, result, i))
}

/// The first lines of the report: its title, the total score and a blank line.
pub open spec fn top_texts(ps: Seq<(String, Vec<i32>)>, result: Seq<usize>) -> Seq<Seq<char>> {
    seq!["[statistics]"@, "\"total score\" "@ + dec_int(score(ps, result, result.len() as int)), Seq::<char>::empty()]
}

/// The header of the statistics table.
pub open spec fn stats_header(ps: Seq<(String, Vec<i32>)>) -> Seq<char> {
    pad_right("% slot name"@, 30) + " "@ + pad_left("# ptc"@, 5) + wish_headers(max_wish(ps) + 1)
}

/// The separator line of the statistics table.
pub open spec fn stats_separator(ps: Seq<(String, Vec<i32>)>) -> Seq<char> {
    pad_right("% ==="@, 30) + " "@ + pad_left("==="@, 5) + separators(max_wish(ps) + 1)
}

/// The totals line of the statistics table.
pub open spec fn stats_total(slots: Seq<Slot>, ps: Seq<(String, Vec<i32>)>, result: Seq<usize>) -> Seq<char> {
    pad_right("\"total\""@, 30) + " "@ + pad_left(dec(ps.len()), 5) + cells(
        totals(ps, result, max_wish(ps), slots.len() as int),
    )
}

/// The lines of the report before the results header.
pub open spec fn head_texts(slots: Seq<Slot>, ps: Seq<(String, Vec<i32>)>, result: Seq<usize>) -> Seq<Seq<char>> {
    top_texts(ps, result) + seq![stats_header(ps)] + stat_texts(slots, ps, result, max_wish(ps), slots.len() as int)
        + seq![stats_separator(ps), stats_total(slots, ps, result), Seq::<char>::empty()]
}

/// The results header line.
pub open spec fn results_header() -> Seq<char> {
    pad_right("% mail"@, 35) + " "@ + pad_right("slot name"@, 30) + " "@ + pad_left("slot#"@, 5) + " "@ + pad_left(
        "wish"@,
        5,
    )
}

/// The lines of the report.
pub open spec fn report_texts(slots: Seq<Slot>, ps: Seq<(String, Vec<i32>)>, result: Seq<usize>) -> Seq<Seq<char>> {
    head_texts(slots, ps, result) + seq!["[results]"@, results_header()] + result_texts(
        slots,
        ps,
        result,
        result.len() as int,
    )
}

proof fn lemma_slot_stats_joined(slots: Seq<Slot>, ps: Seq<(String, Vec<i32>)>, result: Seq<usize>, m: int, k: int)
    requires
        0 <= k,
    ensures
        slot_stats(slots, ps, result, m, k) == joined(stat_texts(slots, ps, result, m, k)),
    decreases k,
{
    reveal_strlit("\n");
    if k == 0 {
        assert(stat_texts(slots, ps, result, m, k) =~= Seq::<Seq<char>>::empty());
    } else {
        lemma_slot_stats_joined(slots, ps, result, m, k - 1);
        assert(stat_texts(slots, ps, result, m, k).drop_last() =~= stat_texts(slots, ps, result, m, k - 1));
        assert(slot_stats(slots, ps, result, m, k) =~= joined(stat_texts(slots, ps, result, m, k)));
    }
}

proof fn lemma_result_lines_joined(slots: Seq<Slot>, ps: Seq<(String, Vec<i32>)>, result: Seq<usize>, k: int)
    requires
        0 <= k,
    ensures
        result_lines(slots, ps, result, k) == joined(result_texts(slots, ps, result, k)),
    decreases k,
{
    reveal_strlit("\n");
    if k == 0 {
        assert(result_texts(slots, ps, result, k) =~= Seq::<Seq<char>>::empty());
    } else {
        lemma_result_lines_joined(slots, ps, result, k - 1);
        assert(result_texts(slots, ps, result, k).drop_last() =~= result_texts(slots, ps, result, k - 1));
        assert(result_lines(slots, ps, result, k) =~= joined(result_texts(slots, ps, result, k)));
    }
}

proof fn lemma_joined_small(a: Seq<Seq<char>>)
    requires
        a.len() <= 3,
    ensures
        a.len() == 0 ==> joined(a) == Seq::<char>::empty(),
        a.len() == 1 ==> joined(a) == a[0] + seq!['\n'],
        a.len() == 2 ==> joined(a) == a[0] + seq!['\n'] + a[1] + seq!['\n'],
        a.len() == 3 ==> joined(a) == a[0] + seq!['\n'] + a[1] + seq!['\n'] + a[2] + seq!['\n'],
{
    let e = Seq::<Seq<char>>::empty();
    assert(joined(e) == Seq::<char>::empty());
    if a.len() >= 1 {
        assert(a.take(1).drop_last() =~= e);
        assert(a.take(1).last() == a[0]);
        assert(joined(a.take(1)) =~= a[0] + seq!['\n']);
    }
    if a.len() >= 2 {
        assert(a.take(2).drop_last() =~= a.take(1));
        assert(a.take(2).last() == a[1]);
        assert(joined(a.take(2)) =~= a[0] + seq!['\n'] + a[1] + seq!['\n']);
    }
    if a.len() >= 3 {
        assert(a.take(3).drop_last() =~= a.take(2));
        assert(a.take(3).last() == a[2]);
        assert(joined(a.take(3)) =~= a[0] + seq!['\n'] + a[1] + seq!['\n'] + a[2] + seq!['\n']);
    }
    assert(a.take(a.len() as int) =~= a);
}

proof fn lemma_assoc(x: Seq<char>, y: Seq<char>, z: Seq<char>)
    ensures
        x + y + z == x + (y + z),
{
    assert(x + y + z =~= x + (y + z));
}

proof fn lemma_assoc4(x: Seq<char>, p1: Seq<char>, p2: Seq<char>, p3: Seq<char>, p4: Seq<char>)
    ensures
        x + p1 + p2 + p3 + p4 == x + (p1 + p2 + p3 + p4),
{
    assert(x + p1 + p2 + p3 + p4 =~= x + (p1 + p2 + p3 + p4));
}

proof fn lemma_assoc6(x: Seq<char>, p1: Seq<char>, p2: Seq<char>, p3: Seq<char>, p4: Seq<char>, p5: Seq<char>, p6: Seq<char>)
    ensures
        x + p1 + p2 + p3 + p4 + p5 + p6 == x + (p1 + p2 + p3 + p4 + p5 + p6),
{
    assert(x + p1 + p2 + p3 + p4 + p5 + p6 =~= x + (p1 + p2 + p3 + p4 + p5 + p6));
}

/// The report, regrouped line by line.
proof fn lemma_report_shape(slots: Seq<Slot>, ps: Seq<(String, Vec<i32>)>, result: Seq<usize>)
    ensures
        report(slots, ps, result) == "[statistics]\n"@ + "\"total score\" "@ + dec_int(score(ps, result, result.len() as int))
            + "\n\n"@ + stats_header(ps) + "\n"@ + slot_stats(slots, ps, result, max_wish(ps), slots.len() as int)
            + stats_separator(ps) + "\n"@ + stats_total(slots, ps, result) + "\n"@ + "\n[results]\n"@ + results_header()
            + "\n"@ + result_lines(slots, ps, result, result.len() as int),
{
    let m = max_wish(ps);
    let n = result.len() as int;
    let s0 = "[statistics]\n"@ + "\"total score\" "@ + dec_int(score(ps, result, n)) + "\n\n"@;
    lemma_assoc4(s0, pad_right("% slot name"@, 30), " "@, pad_left("# ptc"@, 5), wish_headers(m + 1));
    let s1 = s0 + stats_header(ps) + "\n"@ + slot_stats(slots, ps, result, m, slots.len() as int);
    lemma_assoc4(s1, pad_right("% ==="@, 30), " "@, pad_left("==="@, 5), separators(m + 1));
    let s2 = s1 + stats_separator(ps) + "\n"@;
    lemma_assoc4(s2, pad_right("\"total\""@, 30), " "@, pad_left(dec(ps.len()), 5), cells(totals(ps, result, m, slots.len() as int)));
    let s3 = s2 + stats_total(slots, ps, result) + "\n"@ + "\n[results]\n"@;
    lemma_assoc6(s3, pad_right("% mail"@, 35), " "@, pad_right("slot name"@, 30), " "@, pad_left("slot#"@, 5), " "@);
    lemma_assoc(s3 + (pad_right("% mail"@, 35) + " "@ + pad_right("slot name"@, 30) + " "@ + pad_left("slot#"@, 5) + " "@), pad_left("wish"@, 5), "\n"@);
    lemma_assoc(s3, pad_right("% mail"@, 35) + " "@ + pad_right("slot name"@, 30) + " "@ + pad_left("slot#"@, 5) + " "@, pad_left("wish"@, 5));
}

proof fn lemma_layout(
    topt: Seq<Seq<char>>,
    l3: Seq<char>,
    st: Seq<Seq<char>>,
    l4: Seq<char>,
    l5: Seq<char>,
    r: Seq<char>,
    hd: Seq<char>,
    rt: Seq<Seq<char>>,
)
    ensures
        joined(topt + seq![l3] + st + seq![l4, l5, Seq::<char>::empty()] + seq![r, hd] + rt) == joined(topt) + l3
            + seq!['\n'] + joined(st) + l4 + seq!['\n'] + l5 + seq!['\n'] + seq!['\n'] + r + seq!['\n'] + hd + seq![
            '\n'
        ] + joined(rt),
{
    let b = seq![l4, l5, Seq::<char>::empty()];
    let c = seq![r, hd];
    lemma_joined_small(seq![l3]);
    lemma_joined_small(b);
    lemma_joined_small(c);
    lemma_joined_concat(topt, seq![l3]);
    lemma_joined_concat(topt + seq![l3], st);
    lemma_joined_concat(topt + seq![l3] + st, b);
    lemma_joined_concat(topt + seq![l3] + st + b, c);
    lemma_joined_concat(topt + seq![l3] + st + b + c, rt);
    assert(joined(b) =~= l4 + seq!['\n'] + l5 + seq!['\n'] + seq!['\n']);
    assert(joined(topt + seq![l3] + st + b + c + rt) =~= joined(topt) + l3 + seq!['\n'] + joined(st) + l4 + seq!['\n']
        + l5 + seq!['\n'] + seq!['\n'] + r + seq!['\n'] + hd + seq!['\n'] + joined(rt));
}

proof fn lemma_regroup(
    s0nl: Seq<char>,
    x: Seq<char>,
    dnl: Seq<char>,
    l3: Seq<char>,
    ss: Seq<char>,
    l4: Seq<char>,
    l5: Seq<char>,
    rnl: Seq<char>,
    hd: Seq<char>,
    rl: Seq<char>,
    s0: Seq<char>,
    r: Seq<char>,
    nl: Seq<char>,
)
    requires
        s0nl == s0 + nl,
        dnl == nl + nl,
        rnl == nl + r + nl,
    ensures
        s0nl + x + dnl + l3 + nl + ss + l4 + nl + l5 + nl + rnl + hd + nl + rl == (s0 + nl + x + nl + Seq::<char>::empty()
            + nl) + l3 + nl + ss + l4 + nl + l5 + nl + nl + r + nl + hd + nl + rl,
{
    assert(s0nl + x + dnl + l3 + nl + ss + l4 + nl + l5 + nl + rnl + hd + nl + rl =~= (s0 + nl + x + nl
        + Seq::<char>::empty() + nl) + l3 + nl + ss + l4 + nl + l5 + nl + nl + r + nl + hd + nl + rl);
}

proof fn lemma_report_literals()
    ensures
        "[statistics]\n"@ == "[statistics]"@ + seq!['\n'],
        "\n\n"@ == seq!['\n'] + seq!['\n'],
        "\n[results]\n"@ == seq!['\n'] + "[results]"@ + seq!['\n'],
        "\n"@ == seq!['\n'],
{
    reveal_strlit("\n");
    reveal_strlit("[statistics]\n");
    reveal_strlit("[statistics]");
    reveal_strlit("\n\n");
    reveal_strlit("\n[results]\n");
    reveal_strlit("[results]");
    assert("[statistics]\n"@ =~= "[statistics]"@ + seq!['\n']);
    assert("\n\n"@ =~= seq!['\n'] + seq!['\n']);
    assert("\n[results]\n"@ =~= seq!['\n'] + "[results]"@ + seq!['\n']);
}

/// The report is its lines, each followed by a newline.
#[verifier::rlimit(60)]
proof fn lemma_report_joined(slots: Seq<Slot>, ps: Seq<(String, Vec<i32>)>, result: Seq<usize>)
    ensures
        report(slots, ps, result) == joined(report_texts(slots, ps, result)),
{
    lemma_report_literals();
    let n = result.len() as int;
    let m = max_wish(ps);
    let nl = seq!['\n'];
    let a = top_texts(ps, result);
    let st = stat_texts(slots, ps, result, m, slots.len() as int);
    let rt = result_texts(slots, ps, result, n);
    let x = "\"total score\" "@ + dec_int(score(ps, result, n));
    assert(report_texts(slots, ps, result) == a + seq![stats_header(ps)] + st + seq![
        stats_separator(ps),
        stats_total(slots, ps, result),
        Seq::<char>::empty(),
    ] + seq!["[results]"@, results_header()] + rt);
    lemma_report_shape(slots, ps, result);
    lemma_slot_stats_joined(slots, ps, result, m, slots.len() as int);
    lemma_result_lines_joined(slots, ps, result, n);
    lemma_joined_small(a);
    lemma_layout(a, stats_header(ps), st, stats_separator(ps), stats_total(slots, ps, result), "[results]"@, results_header(), rt);
    lemma_regroup(
        "[statistics]\n"@,
        x,
        "\n\n"@,
        stats_header(ps),
        slot_stats(slots, ps, result, m, slots.len() as int),
        stats_separator(ps),
        stats_total(slots, ps, result),
        "\n[results]\n"@,
        results_header(),
        result_lines(slots, ps, result, n),
        "[statistics]"@,
        "[results]"@,
        nl,
    );
}

proof fn lemma_report_literal_lines()
    ensures
        one_line("[statistics]"@),
        one_line("\"total score\" "@),
        one_line("% slot name"@),
        one_line("# ptc"@),
        one_line("% ==="@),
        one_line("==="@),
        one_line("\"total\""@),
        one_line("[results]"@),
        one_line("% mail"@),
        one_line("slot name"@),
        one_line("slot#"@),
        one_line("wish"@),
        one_line(" "@),
        "[statistics]"@.len() == 12,
        "[statistics]"@[0] == '[',
        "[statistics]"@.last() == ']',
        "[results]"@.len() == 9,
        "[results]"@[0] == '[',
        "[results]"@.last() == ']',
        "\"total score\" "@[0] == '"',
        "% slot name"@[0] == '%',
        "% ==="@[0] == '%',
        "\"total\""@[0] == '"',
        "% mail"@[0] == '%',
{
    reveal_strlit("[statistics]");
    reveal_strlit("\"total score\" ");
    reveal_strlit("% slot name");
    reveal_strlit("# ptc");
    reveal_strlit("% ===");
    reveal_strlit("===");
    reveal_strlit("\"total\"");
    reveal_strlit("[results]");
    reveal_strlit("% mail");
    reveal_strlit("slot name");
    reveal_strlit("slot#");
    reveal_strlit("wish");
    reveal_strlit(" ");
}

/// Every line of the report holds neither a newline nor a carriage return.
proof fn lemma_report_texts_one_line(slots: Seq<Slot>, ps: Seq<(String, Vec<i32>)>, result: Seq<usize>)
    requires
        forall|i: int| 0 <= i < slots.len() ==> plain_name(#[trigger] slots[i].name@),
        forall|i: int| 0 <= i < ps.len() ==> plain_name(#[trigger] ps[i].0@),
        reportable(slots, ps, result),
    ensures
        forall|i: int| 0 <= i < report_texts(slots, ps, result).len() ==> one_line(#[trigger] report_texts(slots, ps, result)[i]),
{
    let n = result.len() as int;
    let m = max_wish(ps);
    let ts = report_texts(slots, ps, result);
    lemma_report_literal_lines();
    lemma_dec_int_one_line(score(ps, result, n));
    lemma_one_line_concat("\"total score\" "@, dec_int(score(ps, result, n)));
    assert(one_line(Seq::<char>::empty()));
    // The statistics header, separator and totals.
    lemma_pad_right_one_line("% slot name"@, 30);
    lemma_pad_left_one_line("# ptc"@, 5);
    lemma_wish_headers_one_line(m + 1);
    lemma_one_line_concat(pad_right("% slot name"@, 30), " "@);
    lemma_one_line_concat(pad_right("% slot name"@, 30) + " "@, pad_left("# ptc"@, 5));
    lemma_one_line_concat(pad_right("% slot name"@, 30) + " "@ + pad_left("# ptc"@, 5), wish_headers(m + 1));
    lemma_pad_right_one_line("% ==="@, 30);
    lemma_pad_left_one_line("==="@, 5);
    lemma_separators_one_line(m + 1);
    lemma_one_line_concat(pad_right("% ==="@, 30), " "@);
    lemma_one_line_concat(pad_right("% ==="@, 30) + " "@, pad_left("==="@, 5));
    lemma_one_line_concat(pad_right("% ==="@, 30) + " "@ + pad_left("==="@, 5), separators(m + 1));
    lemma_pad_right_one_line("\"total\""@, 30);
    lemma_dec_one_line(ps.len());
    lemma_pad_left_one_line(dec(ps.len()), 5);
    lemma_cells_one_line(totals(ps, result, m, slots.len() as int));
    lemma_one_line_concat(pad_right("\"total\""@, 30), " "@);
    lemma_one_line_concat(pad_right("\"total\""@, 30) + " "@, pad_left(dec(ps.len()), 5));
    lemma_one_line_concat(
        pad_right("\"total\""@, 30) + " "@ + pad_left(dec(ps.len()), 5),
        cells(totals(ps, result, m, slots.len() as int)),
    );
    // The results header.
    lemma_pad_right_one_line("% mail"@, 35);
    lemma_pad_right_one_line("slot name"@, 30);
    lemma_pad_left_one_line("slot#"@, 5);
    lemma_pad_left_one_line("wish"@, 5);
    lemma_one_line_concat(pad_right("% mail"@, 35), " "@);
    lemma_one_line_concat(pad_right("% mail"@, 35) + " "@, pad_right("slot name"@, 30));
    lemma_one_line_concat(pad_right("% mail"@, 35) + " "@ + pad_right("slot name"@, 30), " "@);
    lemma_one_line_concat(pad_right("% mail"@, 35) + " "@ + pad_right("slot name"@, 30) + " "@, pad_left("slot#"@, 5));
    lemma_one_line_concat(pad_right("% mail"@, 35) + " "@ + pad_right("slot name"@, 30) + " "@ + pad_left("slot#"@, 5), " "@);
    lemma_one_line_concat(
        pad_right("% mail"@, 35) + " "@ + pad_right("slot name"@, 30) + " "@ + pad_left("slot#"@, 5) + " "@,
        pad_left("wish"@, 5),
    );
    let k0 = 4 + slots.len();
    assert forall|i: int| 0 <= i < ts.len() implies one_line(#[trigger] ts[i]) by {
        if 4 <= i < k0 {
            let q = i - 4;
            let t = stat_text(slots, ps, result, m, q);
            assert(ts[i] == t);
            assert(plain_name(slots[q].name@));
            lemma_quote_one_line(slots[q].name@);
            lemma_pad_right_one_line(quote(slots[q].name@), 30);
            lemma_dec_one_line(count_in_slot(result, q, n));
            lemma_pad_left_one_line(dec(count_in_slot(result, q, n)), 5);
            lemma_cells_one_line(choices(ps, result, q, m));
            lemma_one_line_concat(pad_right(quote(slots[q].name@), 30), " "@);
            lemma_one_line_concat(pad_right(quote(slots[q].name@), 30) + " "@, pad_left(dec(count_in_slot(result, q, n)), 5));
            lemma_one_line_concat(
                pad_right(quote(slots[q].name@), 30) + " "@ + pad_left(dec(count_in_slot(result, q, n)), 5),
                cells(choices(ps, result, q, m)),
            );
        } else if i >= k0 + 5 {
            let q = i - k0 - 5;
            assert(ts[i] == result_text(slots, ps, result, q));
            assert(result[q] < slots.len());
            lemma_result_text(slots, ps, result, q);
        }
    }
}

proof fn lemma_first_char(a: Seq<char>, b: Seq<char>)
    requires
        a.len() > 0,
    ensures
        (a + b).len() > 0,
        (a + b)[0] == a[0],
{
}

/// The first characters of the report's lines other than the blank ones and the titles.
proof fn lemma_line_heads(slots: Seq<Slot>, ps: Seq<(String, Vec<i32>)>, result: Seq<usize>, m: int, q: int)
    ensures
        stats_header(ps).len() > 0 && stats_header(ps)[0] == '%',
        stats_separator(ps).len() > 0 && stats_separator(ps)[0] == '%',
        stats_total(slots, ps, result).len() > 0 && stats_total(slots, ps, result)[0] == '"',
        results_header().len() > 0 && results_header()[0] == '%',
        ("\"total score\" "@ + dec_int(score(ps, result, result.len() as int))).len() > 0,
        ("\"total score\" "@ + dec_int(score(ps, result, result.len() as int)))[0] == '"',
        stat_text(slots, ps, result, m, q).len() > 0 && stat_text(slots, ps, result, m, q)[0] == '"',
{
    reveal_strlit("% slot name");
    reveal_strlit("% ===");
    reveal_strlit("\"total\"");
    reveal_strlit("% mail");
    reveal_strlit("\"total score\" ");
    reveal_strlit("\"");
    let a = pad_right("% slot name"@, 30);
    lemma_first_char("% slot name"@, spaces(30 - 11));
    lemma_first_char(a, " "@);
    lemma_first_char(a + " "@, pad_left("# ptc"@, 5));
    lemma_first_char(a + " "@ + pad_left("# ptc"@, 5), wish_headers(max_wish(ps) + 1));
    let b = pad_right("% ==="@, 30);
    lemma_first_char("% ==="@, spaces(30 - 5));
    lemma_first_char(b, " "@);
    lemma_first_char(b + " "@, pad_left("==="@, 5));
    lemma_first_char(b + " "@ + pad_left("==="@, 5), separators(max_wish(ps) + 1));
    let c = pad_right("\"total\""@, 30);
    lemma_first_char("\"total\""@, spaces(30 - 7));
    lemma_first_char(c, " "@);
    lemma_first_char(c + " "@, pad_left(dec(ps.len()), 5));
    lemma_first_char(c + " "@ + pad_left(dec(ps.len()), 5), cells(totals(ps, result, max_wish(ps), slots.len() as int)));
    let d = pad_right("% mail"@, 35);
    lemma_first_char("% mail"@, spaces(35 - 6));
    lemma_first_char(d, " "@);
    lemma_first_char(d + " "@, pad_right("slot name"@, 30));
    lemma_first_char(d + " "@ + pad_right("slot name"@, 30), " "@);
    lemma_first_char(d + " "@ + pad_right("slot name"@, 30) + " "@, pad_left("slot#"@, 5));
    lemma_first_char(d + " "@ + pad_right("slot name"@, 30) + " "@ + pad_left("slot#"@, 5), " "@);
    lemma_first_char(d + " "@ + pad_right("slot name"@, 30) + " "@ + pad_left("slot#"@, 5) + " "@, pad_left("wish"@, 5));
    lemma_first_char("\"total score\" "@, dec_int(score(ps, result, result.len() as int)));
    let name = slots[q].name@;
    let e = pad_right(quote(name), 30);
    lemma_first_char("\""@, name);
    lemma_first_char("\""@ + name, "\""@);
    lemma_first_char(quote(name), spaces(30 - quote(name).len()));
    lemma_first_char(e, " "@);
    lemma_first_char(e + " "@, pad_left(dec(count_in_slot(result, q, result.len() as int)), 5));
    lemma_first_char(e + " "@ + pad_left(dec(count_in_slot(result, q, result.len() as int)), 5), cells(choices(ps, result, q, m)));
}

proof fn lemma_entries_skip(pre: Seq<Seq<char>>, rest: Seq<Seq<char>>)
    requires
        forall|i: int| 0 <= i < pre.len() ==> trim(#[trigger] pre[i]) != "[results]"@,
    ensures
        result_entries(pre + rest, false) == result_entries(rest, false),
    decreases pre.len(),
{
    if pre.len() == 0 {
        assert(pre + rest =~= rest);
    } else {
        assert((pre + rest)[0] == pre[0]);
        assert((pre + rest).drop_first() =~= pre.drop_first() + rest);
        assert forall|i: int| 0 <= i < pre.drop_first().len() implies trim(#[trigger] pre.drop_first()[i])
            != "[results]"@ by {
            assert(pre.drop_first()[i] == pre[i + 1]);
        }
        lemma_entries_skip(pre.drop_first(), rest);
    }
}

/// The mail and the slot name of each of the first `k` participants.
pub open spec fn mailed_results(slots: Seq<Slot>, ps: Seq<(String, Vec<i32>)>, result: Seq<usize>, k: int) -> Seq<
    (Seq<char>, Seq<char>),
> {
    Seq::new(k as nat, |i: int| (ps[i].0@, slots[result[i] as int].name@))
}

proof fn lemma_entries_results(slots: Seq<Slot>, ps: Seq<(String, Vec<i32>)>, result: Seq<usize>, j: int)
    requires
        0 <= j <= result.len(),
        reportable(slots, ps, result),
        forall|i: int| 0 <= i < slots.len() ==> plain_name(#[trigger] slots[i].name@),
        forall|i: int| 0 <= i < ps.len() ==> plain_name(#[trigger] ps[i].0@),
    ensures
        result_entries(result_texts(slots, ps, result, result.len() as int).skip(j), true) == mailed_results(
            slots,
            ps,
            result,
            result.len() as int,
        ).skip(j),
    decreases result.len() - j,
{
    reveal_strlit("[results]");
    let n = result.len() as int;
    let rt = result_texts(slots, ps, result, n);
    let mr = mailed_results(slots, ps, result, n);
    if j == n {
        assert(rt.skip(j) =~= Seq::<Seq<char>>::empty());
        assert(mr.skip(j) =~= Seq::<(Seq<char>, Seq<char>)>::empty());
    } else {
        lemma_entries_results(slots, ps, result, j + 1);
        let t = rt.skip(j)[0];
        assert(t == result_text(slots, ps, result, j));
        assert(result[j] < slots.len());
        lemma_result_text(slots, ps, result, j);
        assert(trim(t) != "[results]"@) by {
            assert(trim(t)[0] == '"');
        }
        assert(rt.skip(j).drop_first() =~= rt.skip(j + 1));
        assert(mr.skip(j) =~= seq![mr[j]] + mr.skip(j + 1));
    }
}

/// The layout of a report, line by line: its title, the total score (the sum of the squared
/// wishes of the slots given), a blank line, the statistics header, one line per slot with the
/// number of participants put in it and how many got it with each wish, the separator, the
/// totals, a blank line, the results header, its column header, and one line per participant
/// with their quoted mail, the quoted slot name, the slot's number and their wish for it;
/// for mails and slot names without a double quote, a newline or a carriage return.
pub proof fn lemma_report_lines(slots: Seq<Slot>, ps: Seq<(String, Vec<i32>)>, result: Seq<usize>)
    requires
        reportable(slots, ps, result),
        forall|i: int| 0 <= i < slots.len() ==> plain_name(#[trigger] slots[i].name@),
        forall|i: int| 0 <= i < ps.len() ==> plain_name(#[trigger] ps[i].0@),
    ensures
        lines(report(slots, ps, result)) == report_texts(slots, ps, result),
{
    let ts = report_texts(slots, ps, result);
    lemma_report_joined(slots, ps, result);
    lemma_report_texts_one_line(slots, ps, result);
    assert forall|i: int| 0 <= i < ts.len() implies lacks(#[trigger] ts[i], '\n') by {
        assert(one_line(ts[i]));
    }
    lemma_lines_joined(ts);
    assert forall|i: int| 0 <= i < ts.len() implies strip_cr(#[trigger] ts[i]) == ts[i] by {
        assert(one_line(ts[i]));
        if ts[i].len() > 0 {
            assert(ts[i][ts[i].len() - 1] != '\r');
        }
    }
    assert(ts.map_values(|l: Seq<char>| strip_cr(l)) =~= ts);
}

/// No line before the results header reads as one.
proof fn lemma_head_lines(slots: Seq<Slot>, ps: Seq<(String, Vec<i32>)>, result: Seq<usize>)
    ensures
        forall|i: int|
            0 <= i < head_texts(slots, ps, result).len() ==> trim(#[trigger] head_texts(slots, ps, result)[i])
                != "[results]"@,
{
    let m = max_wish(ps);
    let h = head_texts(slots, ps, result);
    lemma_report_literal_lines();
    assert forall|i: int| 0 <= i < h.len() implies trim(#[trigger] h[i]) != "[results]"@ by {
        let l = h[i];
        if i == 0 {
            assert(l == "[statistics]"@);
            lemma_trim_whole(l);
        } else if i == 2 || i == h.len() - 1 {
            assert(l.len() == 0);
            assert(trim(l) == l);
        } else {
            lemma_line_heads(slots, ps, result, m, i - 4);
            if 4 <= i < 4 + slots.len() {
                assert(l == stat_text(slots, ps, result, m, i - 4));
            }
            assert(l.len() > 0 && !is_ws(l[0]));
            lemma_trim_head(l);
        }
    }
}

/// Reading the results back from a report gives, in order, each participant's mail and the
/// name of the slot they got, for mails and slot names without a double quote, a newline or a
/// carriage return.
pub proof fn lemma_report_reads_back(slots: Seq<Slot>, ps: Seq<(String, Vec<i32>)>, result: Seq<usize>)
    requires
        reportable(slots, ps, result),
        forall|i: int| 0 <= i < slots.len() ==> plain_name(#[trigger] slots[i].name@),
        forall|i: int| 0 <= i < ps.len() ==> plain_name(#[trigger] ps[i].0@),
    ensures
        result_entries(lines(report(slots, ps, result)), false) == mailed_results(slots, ps, result, result.len() as int),
{
    let n = result.len() as int;
    let ts = report_texts(slots, ps, result);
    let h = head_texts(slots, ps, result);
    let rt = result_texts(slots, ps, result, n);
    let rest = seq!["[results]"@, results_header()] + rt;
    lemma_report_lines(slots, ps, result);
    lemma_head_lines(slots, ps, result);
    assert(ts =~= h + rest);
    lemma_entries_skip(h, rest);
    lemma_report_literal_lines();
    lemma_trim_whole("[results]"@);
    assert(rest[0] == "[results]"@);
    assert(rest.drop_first()[0] == results_header());
    lemma_line_heads(slots, ps, result, max_wish(ps), 0);
    lemma_trim_head(results_header());
    assert(trim(results_header()) != "[results]"@);
    assert(result_entries(rest, false) == result_entries(rest.drop_first(), true));
    assert(rest.drop_first().drop_first() =~= rt);
    assert(result_entries(rest.drop_first(), true) == result_entries(rt, true));
    lemma_entries_results(slots, ps, result, 0);
    assert(rt.skip(0) =~= rt);
    assert(mailed_results(slots, ps, result, n).skip(0) =~= mailed_results(slots, ps, result, n));
}

} // verus!
