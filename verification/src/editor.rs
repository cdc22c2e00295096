//! Reading the editor text back: the parser recovers the slots and participants that the
//! editor text was written from.
use vstd::prelude::*;
use crate::text::{
    is_ws, trim, trim_start, trim_end, split_ws, word_len, lemma_word_len, find_char, lemma_find_char, lines, strip_cr,
    lemma_lines_step, quote, spaces,
};
use crate::parse::{
    quoted, strip_comment, wish_values, parse_line, slot_line, participant_line, ParseModel, Section, slot_view,
    header_line, parse_lines, parse_spec, initial_model, wish_errors, has_mail, total_min, total_max,
    lemma_parse_lines_inv, lemma_sums_fit,
};
use crate::model::{Slot, Participant, ParticipantStatus, status_label};
use crate::numbers::{dec, dec_int, is_digit, all_digits, lemma_dec_digits, lemma_parse_i32_dec, lemma_parse_u32_dec};
use crate::format::{
    wish_text, byte_len, slot_numbers, editor_slot_lines, editor_participant_line, editor_participant_lines,
    editor_text, slot_name_width, mail_width,
};

verus! {

proof fn lemma_trim_start_shape(s: Seq<char>)
    ensures
        trim_start(s).len() <= s.len(),
        trim_start(s) == s.skip(s.len() - trim_start(s).len()),
        forall|k: int| 0 <= k < s.len() - trim_start(s).len() ==> is_ws(#[trigger] s[k]),
    decreases s.len(),
{
    if s.len() > 0 && is_ws(s[0]) {
        lemma_trim_start_shape(s.drop_first());
        let a = s.len() - trim_start(s).len();
        assert(s.drop_first().skip(a - 1) =~= s.skip(a));
        assert forall|k: int| 0 <= k < a implies is_ws(#[trigger] s[k]) by {
            if k > 0 {
                assert(s[k] == s.drop_first()[k - 1]);
            }
        }
    } else {
        assert(s.skip(0) =~= s);
    }
}

pub(crate) proof fn lemma_trim_end_shape(s: Seq<char>)
    ensures
        trim_end(s).len() <= s.len(),
        trim_end(s) == s.take(trim_end(s).len() as int),
        forall|k: int| trim_end(s).len() <= k < s.len() ==> is_ws(#[trigger] s[k]),
    decreases s.len(),
{
    if s.len() > 0 && is_ws(s.last()) {
        lemma_trim_end_shape(s.drop_last());
        let m = trim_end(s).len() as int;
        assert(s.drop_last().take(m) =~= s.take(m));
        assert forall|k: int| m <= k < s.len() implies is_ws(#[trigger] s[k]) by {
            if k < s.len() - 1 {
                assert(s[k] == s.drop_last()[k]);
            }
        }
    } else {
        assert(s.take(s.len() as int) =~= s);
    }
}

/// Trimming keeps a stretch of `s` around any character that is not whitespace, and drops
/// only whitespace before it.
pub(crate) proof fn lemma_trim_span(s: Seq<char>, i: int) -> (r: (int, int))
    requires
        0 <= i < s.len(),
        !is_ws(s[i]),
    ensures
        0 <= r.0 <= i < r.1 <= s.len(),
        trim(s) == s.subrange(r.0, r.1),
        forall|k: int| 0 <= k < r.0 ==> is_ws(#[trigger] s[k]),
{
    lemma_trim_start_shape(s);
    let u = trim_start(s);
    let a = s.len() - u.len();
    if i < a {
        assert(is_ws(s[i]));
    }
    lemma_trim_end_shape(u);
    let m = trim_end(u).len() as int;
    if m <= i - a {
        assert(u[i - a] == s[i]);
        assert(is_ws(u[i - a]));
    }
    assert(u.take(m) =~= s.subrange(a, a + m));
    (a, a + m)
}

/// Whitespace alone holds no word.
proof fn lemma_split_ws_blank(s: Seq<char>)
    requires
        forall|k: int| 0 <= k < s.len() ==> is_ws(#[trigger] s[k]),
    ensures
        split_ws(s) == Seq::<Seq<char>>::empty(),
    decreases s.len(),
{
    if s.len() > 0 {
        assert forall|k: int| 0 <= k < s.drop_first().len() implies is_ws(#[trigger] s.drop_first()[k]) by {
            assert(s.drop_first()[k] == s[k + 1]);
        }
        lemma_split_ws_blank(s.drop_first());
    }
}

/// The words of two pieces of text that whitespace separates are the words of each.
proof fn lemma_split_ws_concat(a: Seq<char>, b: Seq<char>)
    requires
        a.len() == 0 || b.len() == 0 || is_ws(a.last()) || is_ws(b[0]),
    ensures
        split_ws(a + b) == split_ws(a) + split_ws(b),
    decreases a.len(),
{
    if a.len() == 0 {
        assert(a + b =~= b);
    } else if is_ws(a[0]) {
        assert((a + b).drop_first() =~= a.drop_first() + b);
        lemma_split_ws_concat(a.drop_first(), b);
    } else {
        lemma_word_len(a);
        lemma_word_len(a + b);
        let w = word_len(a);
        if w < a.len() {
            assert(word_len(a + b) == w) by {
                word_len_agrees(a, b, w);
            }
        } else {
            assert(word_len(a + b) == w) by {
                word_len_agrees(a, b, w);
            }
        }
        assert((a + b).take(w) =~= a.take(w));
        assert((a + b).skip(w) =~= a.skip(w) + b);
        lemma_split_ws_concat(a.skip(w), b);
    }
}

proof fn word_len_agrees(a: Seq<char>, b: Seq<char>, w: int)
    requires
        w == word_len(a),
        (a.len() > 0 && is_ws(a.last())) || b.len() == 0 || is_ws(b[0]),
    ensures
        word_len(a + b) == w,
    decreases a.len(),
{
    if a.len() == 0 {
        assert(a + b =~= b);
    } else if is_ws(a[0]) {
        assert((a + b)[0] == a[0]);
    } else {
        assert((a + b)[0] == a[0]);
        assert((a + b).drop_first() =~= a.drop_first() + b);
        if a.len() == 1 {
            assert(a.drop_first() =~= Seq::<char>::empty());
            assert(a.drop_first() + b =~= b);
            assert(a.last() == a[0]);
        } else {
            assert(a.drop_first().last() == a.last());
        }
        word_len_agrees(a.drop_first(), b, word_len(a.drop_first()));
        assert(word_len(a + b) == 1 + word_len((a + b).drop_first()));
    }
}

/// A single word, with no whitespace in it.
proof fn lemma_split_ws_word(w: Seq<char>)
    requires
        w.len() > 0,
        forall|k: int| 0 <= k < w.len() ==> !is_ws(#[trigger] w[k]),
    ensures
        split_ws(w) == seq![w],
{
    lemma_word_len(w);
    assert(!is_ws(w[0]));
    if word_len(w) < w.len() {
        assert(!is_ws(w[word_len(w)]));
    }
    assert(word_len(w) == w.len());
    assert(w.take(w.len() as int) =~= w);
    assert(w.skip(w.len() as int) =~= Seq::<char>::empty());
    assert(split_ws(w) == seq![w.take(word_len(w))] + split_ws(w.skip(word_len(w))));
    assert(split_ws(Seq::<char>::empty()) == Seq::<Seq<char>>::empty());
    assert(seq![w] + Seq::<Seq<char>>::empty() =~= seq![w]);
}

/// `c` occurs nowhere in `s`.
pub open spec fn lacks(s: Seq<char>, c: char) -> bool {
    forall|k: int| 0 <= k < s.len() ==> #[trigger] s[k] != c
}

pub(crate) proof fn lemma_lacks_concat(a: Seq<char>, b: Seq<char>, c: char)
    requires
        lacks(a, c),
        lacks(b, c),
    ensures
        lacks(a + b, c),
{
    assert forall|k: int| 0 <= k < (a + b).len() implies #[trigger] (a + b)[k] != c by {
        if k >= a.len() {
            assert((a + b)[k] == b[k - a.len()]);
        }
    }
}

/// Each line followed by a newline.
pub open spec fn joined(ls: Seq<Seq<char>>) -> Seq<char>
    decreases ls.len(),
{
    if ls.len() == 0 {
        Seq::empty()
    } else {
        joined(ls.drop_last()) + ls.last() + seq!['\n']
    }
}

proof fn lemma_joined_front(ls: Seq<Seq<char>>)
    requires
        ls.len() > 0,
    ensures
        joined(ls) == ls[0] + seq!['\n'] + joined(ls.drop_first()),
    decreases ls.len(),
{
    if ls.len() == 1 {
        assert(ls.drop_last() =~= Seq::<Seq<char>>::empty());
        assert(ls.drop_first() =~= Seq::<Seq<char>>::empty());
        assert(joined(ls) =~= ls[0] + seq!['\n'] + joined(ls.drop_first()));
    } else {
        lemma_joined_front(ls.drop_last());
        assert(ls.drop_last().drop_first() =~= ls.drop_first().drop_last());
        assert(joined(ls) =~= ls[0] + seq!['\n'] + joined(ls.drop_first()));
    }
}

pub(crate) proof fn lemma_joined_concat(a: Seq<Seq<char>>, b: Seq<Seq<char>>)
    ensures
        joined(a + b) == joined(a) + joined(b),
    decreases b.len(),
{
    if b.len() == 0 {
        assert(a + b =~= a);
        assert(joined(a) + joined(b) =~= joined(a));
    } else {
        lemma_joined_concat(a, b.drop_last());
        assert((a + b).drop_last() =~= a + b.drop_last());
        assert(joined(a + b) =~= joined(a) + joined(b));
    }
}

/// Joined lines without newlines in them split back into those lines.
pub(crate) proof fn lemma_lines_joined(ls: Seq<Seq<char>>)
    requires
        forall|i: int| 0 <= i < ls.len() ==> lacks(#[trigger] ls[i], '\n'),
    ensures
        lines(joined(ls)) == ls.map_values(|l: Seq<char>| strip_cr(l)),
    decreases ls.len(),
{
    if ls.len() == 0 {
        assert(ls.map_values(|l: Seq<char>| strip_cr(l)) =~= Seq::<Seq<char>>::empty());
    } else {
        lemma_joined_front(ls);
        assert(lacks(ls[0], '\n'));
        lemma_lines_step(ls[0], joined(ls.drop_first()));
        assert forall|i: int| 0 <= i < ls.drop_first().len() implies lacks(#[trigger] ls.drop_first()[i], '\n') by {
            assert(ls.drop_first()[i] == ls[i + 1]);
        }
        lemma_lines_joined(ls.drop_first());
        assert(ls.map_values(|l: Seq<char>| strip_cr(l)) =~= seq![strip_cr(ls[0])] + ls.drop_first().map_values(
            |l: Seq<char>| strip_cr(l),
        ));
    }
}

/// A line made of a quoted name (with no quote in it), then text `u` with no `%` in it, then
/// a comment: the parser finds the name, and the words of `u` as the line's values.
proof fn lemma_quoted_line(name: Seq<char>, u: Seq<char>, tail: Seq<char>)
    requires
        lacks(name, '"'),
        lacks(u, '%'),
    ensures
        ({
            let t = trim(quote(name) + u + seq!['%'] + tail);
            &&& t.len() > 0
            &&& t[0] == '"'
            &&& quoted(t) is Some
            &&& quoted(t).unwrap().0 == name
            &&& split_ws(strip_comment(quoted(t).unwrap().1)) == split_ws(u)
        }),
{
    reveal_strlit("\"");
    let line = quote(name) + u + seq!['%'] + tail;
    let q = name.len() as int;
    let pct = q + 2 + u.len();
    assert(line[0] == '"');
    assert(line[pct] == '%');
    let (a, b) = lemma_trim_span(line, pct);
    if a > 0 {
        assert(is_ws(line[0]));
    }
    let t = trim(line);
    assert(t =~= line.take(b));
    let rest = t.drop_first();
    assert forall|k: int| 0 <= k < q implies rest[k] != '"' by {
        assert(rest[k] == name[k]);
    }
    assert(rest[q] == '"');
    lemma_find_char(rest, '"', q);
    assert(rest.take(q) =~= name);
    let x = rest.skip(q + 1);
    assert(x =~= (u + seq!['%'] + tail).take(b - q - 2));
    assert(x[u.len() as int] == '%');
    let (a2, b2) = lemma_trim_span(x, u.len() as int);
    let r = trim(x);
    assert forall|k: int| 0 <= k < u.len() - a2 implies r[k] != '%' by {
        assert(r[k] == u[a2 + k]);
    }
    assert(r[u.len() - a2] == '%');
    lemma_find_char(r, '%', u.len() - a2);
    assert(strip_comment(r) =~= u.skip(a2));
    assert(u =~= u.take(a2) + u.skip(a2));
    assert forall|k: int| 0 <= k < u.take(a2).len() implies is_ws(#[trigger] u.take(a2)[k]) by {
        assert(u.take(a2)[k] == x[k]);
    }
    lemma_split_ws_blank(u.take(a2));
    lemma_split_ws_concat(u.take(a2), u.skip(a2));
    assert(Seq::<Seq<char>>::empty() + split_ws(u.skip(a2)) =~= split_ws(u.skip(a2)));
}

/// A digit is no whitespace and none of the characters the parser looks for.
proof fn lemma_digit_char(c: char)
    requires
        is_digit(c),
    ensures
        !is_ws(c),
        c != '%',
        c != '"',
        c != '\n',
{
}

proof fn lemma_dec_word(n: nat)
    ensures
        split_ws(dec(n)) == seq![dec(n)],
        lacks(dec(n), '%'),
        lacks(dec(n), '"'),
        lacks(dec(n), '\n'),
        !is_ws(dec(n).last()),
{
    lemma_dec_digits(n);
    let d = dec(n);
    assert forall|k: int| 0 <= k < d.len() implies !is_ws(#[trigger] d[k]) && d[k] != '%' && d[k] != '"' && d[k]
        != '\n' by {
        assert(is_digit(d[k]));
        lemma_digit_char(d[k]);
    }
    lemma_split_ws_word(d);
}

proof fn lemma_spaces(p: int)
    ensures
        forall|k: int| 0 <= k < spaces(p).len() ==> is_ws(#[trigger] spaces(p)[k]),
        lacks(spaces(p), '%'),
        lacks(spaces(p), '"'),
        lacks(spaces(p), '\n'),
        split_ws(spaces(p)) == Seq::<Seq<char>>::empty(),
{
    lemma_split_ws_blank(spaces(p));
}

/// The two values of a slot line, between its padding and its comment.
proof fn lemma_slot_values(p: int, a: nat, b: nat)
    ensures
        split_ws(spaces(p) + dec(a) + seq![' '] + dec(b) + seq![' ', ' ']) == seq![dec(a), dec(b)],
        lacks(spaces(p) + dec(a) + seq![' '] + dec(b) + seq![' ', ' '], '%'),
        lacks(spaces(p) + dec(a) + seq![' '] + dec(b) + seq![' ', ' '], '\n'),
{
    lemma_spaces(p);
    lemma_dec_word(a);
    lemma_dec_word(b);
    let sp = spaces(p);
    let tail = seq![' ', ' '];
    let x = seq![' '] + dec(b) + tail;
    lemma_split_ws_blank(tail);
    lemma_split_ws_blank(seq![' ']);
    lemma_split_ws_concat(dec(b), tail);
    lemma_split_ws_concat(seq![' '], dec(b) + tail);
    assert(seq![' '] + (dec(b) + tail) =~= x);
    lemma_split_ws_concat(dec(a), x);
    lemma_split_ws_concat(sp, dec(a) + x);
    assert(sp + (dec(a) + x) =~= spaces(p) + dec(a) + seq![' '] + dec(b) + seq![' ', ' ']);
    assert(split_ws(x) =~= seq![dec(b)]);
    assert(split_ws(sp + (dec(a) + x)) =~= seq![dec(a), dec(b)]);
    lemma_lacks_concat(sp, dec(a), '%');
    lemma_lacks_concat(sp + dec(a), seq![' '], '%');
    lemma_lacks_concat(sp + dec(a) + seq![' '], dec(b), '%');
    lemma_lacks_concat(sp + dec(a) + seq![' '] + dec(b), tail, '%');
    lemma_lacks_concat(sp, dec(a), '\n');
    lemma_lacks_concat(sp + dec(a), seq![' '], '\n');
    lemma_lacks_concat(sp + dec(a) + seq![' '], dec(b), '\n');
    lemma_lacks_concat(sp + dec(a) + seq![' '] + dec(b), tail, '\n');
}

/// The words of the wish values as written.
spec fn wish_words(w: Seq<i32>) -> Seq<Seq<char>> {
    Seq::new(w.len(), |i: int| dec_int(w[i] as int))
}

/// Non-negative wish values written out are their decimal words, and hold no `%` or newline.
proof fn lemma_wish_text(w: Seq<i32>)
    requires
        forall|i: int| 0 <= i < w.len() ==> #[trigger] w[i] >= 0,
    ensures
        split_ws(wish_text(w)) == wish_words(w),
        lacks(wish_text(w), '%'),
        lacks(wish_text(w), '\n'),
    decreases w.len(),
{
    if w.len() == 0 {
        assert(wish_words(w) =~= Seq::<Seq<char>>::empty());
    } else if w.len() == 1 {
        lemma_dec_word(w[0] as nat);
        assert(wish_words(w) =~= seq![dec(w[0] as nat)]);
    } else {
        let v = w.drop_last();
        lemma_wish_text(v);
        let d = dec(w.last() as nat);
        lemma_dec_word(w.last() as nat);
        lemma_split_ws_blank(seq![' ']);
        lemma_split_ws_concat(seq![' '], d);
        lemma_split_ws_concat(wish_text(v), seq![' '] + d);
        reveal_strlit(" ");
        assert(" "@ =~= seq![' ']);
        assert(dec_int(w.last() as int) == d);
        assert(wish_text(w) == wish_text(v) + " "@ + dec_int(w.last() as int));
        assert(wish_text(v) + (seq![' '] + d) =~= wish_text(w));
        assert(wish_words(w) =~= wish_words(v) + seq![d]);
        assert(split_ws(seq![' '] + d) =~= seq![d]);
        lemma_lacks_concat(wish_text(v), seq![' '], '%');
        lemma_lacks_concat(wish_text(v) + seq![' '], d, '%');
        lemma_lacks_concat(wish_text(v), seq![' '], '\n');
        lemma_lacks_concat(wish_text(v) + seq![' '], d, '\n');
    }
}

/// The parser reads the written wish words back as the wish values.
proof fn lemma_wish_values(w: Seq<i32>)
    requires
        forall|i: int| 0 <= i < w.len() ==> #[trigger] w[i] >= 0,
    ensures
        wish_values(wish_words(w)) == w,
        wish_errors(wish_words(w)).len() == 0,
    decreases w.len(),
{
    if w.len() > 0 {
        let v = w.drop_last();
        lemma_wish_values(v);
        assert(wish_words(w).drop_last() =~= wish_words(v));
        lemma_parse_i32_dec(w.last());
        assert(wish_errors(wish_words(w)) == wish_errors(wish_words(v)));
        assert(wish_values(wish_words(w)) =~= v.push(w.last()));
        assert(v.push(w.last()) =~= w);
    } else {
        assert(wish_words(w) =~= Seq::<Seq<char>>::empty());
    }
}

/// The line of a slot in the editor text, without its newline.
spec fn slot_text(s: Slot, width: int, k: int) -> Seq<char> {
    quote(s.name@) + spaces(width - byte_len(quote(s.name@)) + 1) + dec(s.vmin as nat) + " "@ + dec(s.vmax as nat)
        + "  % slot #"@ + dec(k as nat)
}

/// The line of a participant in the editor text, without its newline.
spec fn participant_text(p: Participant, width: int) -> Seq<char> {
    quote(p.mail@) + spaces(width - byte_len(quote(p.mail@)) + 1) + wish_text(p.wish@) + "  % "@ + status_label(
        p.status,
    ) + (if p.id@.len() > 0 { "  % wish?"@ + p.id@ } else { Seq::empty() })
}

/// A slot line adds its slot.
proof fn lemma_slot_line_parses(st: ParseModel, idx: int, s: Slot, width: int, k: int)
    requires
        st.section == Section::Slots,
        !st.stopped,
        lacks(s.name@, '"'),
        s.vmin <= s.vmax,
    ensures
        strip_cr(slot_text(s, width, k)) == slot_text(s, width, k),
        parse_line(st, idx, slot_text(s, width, k)).slots == st.slots.push(slot_view(s)),
        parse_line(st, idx, slot_text(s, width, k)).participants == st.participants,
        parse_line(st, idx, slot_text(s, width, k)).section == st.section,
        parse_line(st, idx, slot_text(s, width, k)).errors == st.errors,
        !parse_line(st, idx, slot_text(s, width, k)).stopped,
{
    reveal_strlit("  % slot #");
    reveal_strlit(" ");
    let p = width - byte_len(quote(s.name@)) + 1;
    let u = spaces(p) + dec(s.vmin as nat) + seq![' '] + dec(s.vmax as nat) + seq![' ', ' '];
    let tail = "  % slot #"@.skip(3) + dec(k as nat);
    let line = slot_text(s, width, k);
    assert(line =~= quote(s.name@) + u + seq!['%'] + tail);
    lemma_dec_word(k as nat);
    assert(line.last() == dec(k as nat).last());
    lemma_slot_values(p, s.vmin as nat, s.vmax as nat);
    lemma_quoted_line(s.name@, u, tail);
    lemma_parse_u32_dec(s.vmin);
    lemma_parse_u32_dec(s.vmax);
}

/// The words of a participant line's values.
proof fn lemma_participant_values(p: int, w: Seq<i32>)
    requires
        forall|i: int| 0 <= i < w.len() ==> #[trigger] w[i] >= 0,
    ensures
        split_ws(spaces(p) + wish_text(w) + seq![' ', ' ']) == wish_words(w),
        lacks(spaces(p) + wish_text(w) + seq![' ', ' '], '%'),
        lacks(spaces(p) + wish_text(w) + seq![' ', ' '], '\n'),
{
    lemma_spaces(p);
    lemma_wish_text(w);
    let tail = seq![' ', ' '];
    lemma_split_ws_blank(tail);
    lemma_split_ws_concat(wish_text(w), tail);
    lemma_split_ws_concat(spaces(p), wish_text(w) + tail);
    assert(spaces(p) + (wish_text(w) + tail) =~= spaces(p) + wish_text(w) + tail);
    assert(split_ws(spaces(p) + wish_text(w) + tail) =~= wish_words(w));
    lemma_lacks_concat(spaces(p), wish_text(w), '%');
    lemma_lacks_concat(spaces(p) + wish_text(w), tail, '%');
    lemma_lacks_concat(spaces(p), wish_text(w), '\n');
    lemma_lacks_concat(spaces(p) + wish_text(w), tail, '\n');
}

/// A participant line adds its participant, whatever errors it also records.
proof fn lemma_participant_line_parses(st: ParseModel, idx: int, p: Participant, width: int)
    requires
        st.section == Section::Participants,
        !st.stopped,
        lacks(p.mail@, '"'),
        forall|i: int| 0 <= i < p.wish@.len() ==> #[trigger] p.wish@[i] >= 0,
    ensures
        ({
            let st2 = parse_line(st, idx, strip_cr(participant_text(p, width)));
            &&& st2.participants == st.participants.push((p.mail@, p.wish@))
            &&& st2.slots == st.slots
            &&& st2.section == st.section
            &&& !st2.stopped
            &&& (st.errors.len() == 0 && !has_mail(st.participants, p.mail@) && p.wish@.len() == st.slots.len()
                && st.participants.len() + 1 <= st.sum_vmax) ==> st2.errors.len() == 0
        }),
{
    reveal_strlit("  % ");
    let q = width - byte_len(quote(p.mail@)) + 1;
    let u = spaces(q) + wish_text(p.wish@) + seq![' ', ' '];
    let id_part = if p.id@.len() > 0 { "  % wish?"@ + p.id@ } else { Seq::empty() };
    let tail = "  % "@.skip(3) + status_label(p.status) + id_part;
    let line = participant_text(p, width);
    assert(line =~= quote(p.mail@) + u + seq!['%'] + tail);
    let head = quote(p.mail@) + u + seq!['%'];
    assert(tail.len() > 0);
    if tail.last() == '\r' {
        assert((head + tail).drop_last() =~= head + tail.drop_last());
    }
    assert(strip_cr(line) =~= head + strip_cr(tail));
    lemma_participant_values(q, p.wish@);
    lemma_quoted_line(p.mail@, u, strip_cr(tail));
    lemma_wish_values(p.wish@);
}

proof fn lemma_status_label(st: ParticipantStatus)
    ensures
        lacks(status_label(st), '\n'),
{
    match st {
        ParticipantStatus::New => reveal_strlit("mail not sent"),
        ParticipantStatus::UpdatePending => reveal_strlit("update mail not sent"),
        ParticipantStatus::MailError => reveal_strlit("mail error"),
        ParticipantStatus::Mailed => reveal_strlit("mail sent, no activity"),
        ParticipantStatus::Visited => reveal_strlit("visited wish page"),
        ParticipantStatus::Done => reveal_strlit("completed wishes"),
        ParticipantStatus::Modified => reveal_strlit("modified wishes"),
    }
}

proof fn lemma_quote_lacks(s: Seq<char>)
    requires
        lacks(s, '\n'),
    ensures
        lacks(quote(s), '\n'),
{
    reveal_strlit("\"");
    lemma_lacks_concat("\""@, s, '\n');
    lemma_lacks_concat("\""@ + s, "\""@, '\n');
}

proof fn lemma_slot_numbers_lacks(k: int)
    ensures
        lacks(slot_numbers(k), '\n'),
    decreases k,
{
    if k > 0 {
        reveal_strlit(" #");
        lemma_slot_numbers_lacks(k - 1);
        lemma_dec_word(k as nat);
        lemma_lacks_concat(slot_numbers(k - 1), " #"@, '\n');
        lemma_lacks_concat(slot_numbers(k - 1) + " #"@, dec(k as nat), '\n');
    }
}

proof fn lemma_slot_text_lacks(s: Slot, width: int, k: int)
    requires
        lacks(s.name@, '\n'),
    ensures
        lacks(slot_text(s, width, k), '\n'),
{
    reveal_strlit("  % slot #");
    reveal_strlit(" ");
    let p = width - byte_len(quote(s.name@)) + 1;
    let u = spaces(p) + dec(s.vmin as nat) + seq![' '] + dec(s.vmax as nat) + seq![' ', ' '];
    let tail = "  % slot #"@.skip(3) + dec(k as nat);
    assert(slot_text(s, width, k) =~= quote(s.name@) + u + seq!['%'] + tail);
    lemma_quote_lacks(s.name@);
    lemma_slot_values(p, s.vmin as nat, s.vmax as nat);
    lemma_dec_word(k as nat);
    lemma_lacks_concat("  % slot #"@.skip(3), dec(k as nat), '\n');
    lemma_lacks_concat(quote(s.name@), u, '\n');
    lemma_lacks_concat(quote(s.name@) + u, seq!['%'], '\n');
    lemma_lacks_concat(quote(s.name@) + u + seq!['%'], tail, '\n');
}

proof fn lemma_participant_text_lacks(p: Participant, width: int)
    requires
        lacks(p.mail@, '\n'),
        lacks(p.id@, '\n'),
        forall|i: int| 0 <= i < p.wish@.len() ==> #[trigger] p.wish@[i] >= 0,
    ensures
        lacks(participant_text(p, width), '\n'),
{
    reveal_strlit("  % ");
    reveal_strlit("  % wish?");
    let q = width - byte_len(quote(p.mail@)) + 1;
    let u = spaces(q) + wish_text(p.wish@) + seq![' ', ' '];
    let id_part = if p.id@.len() > 0 { "  % wish?"@ + p.id@ } else { Seq::empty() };
    let label = status_label(p.status);
    let tail = "  % "@.skip(3) + label + id_part;
    assert(participant_text(p, width) =~= quote(p.mail@) + u + seq!['%'] + tail);
    lemma_quote_lacks(p.mail@);
    lemma_participant_values(q, p.wish@);
    lemma_status_label(p.status);
    lemma_lacks_concat("  % wish?"@, p.id@, '\n');
    lemma_lacks_concat("  % "@.skip(3), label, '\n');
    lemma_lacks_concat("  % "@.skip(3) + label, id_part, '\n');
    lemma_lacks_concat(quote(p.mail@), u, '\n');
    lemma_lacks_concat(quote(p.mail@) + u, seq!['%'], '\n');
    lemma_lacks_concat(quote(p.mail@) + u + seq!['%'], tail, '\n');
}

proof fn lemma_slots_header(st: ParseModel, idx: int)
    requires
        st.section == Section::Before,
    ensures
        strip_cr("[slots]"@) == "[slots]"@,
        parse_line(st, idx, "[slots]"@) == (ParseModel { section: Section::Slots, ..st }),
{
    reveal_strlit("[slots]");
    reveal_strlit("slots");
    let t = "[slots]"@;
    assert(trim(t) == t);
    lemma_find_char(t, ']', 6);
    let w = t.subrange(1, 6);
    assert(trim(w) == w);
    assert(w =~= "slots"@);
}

proof fn lemma_participants_header(st: ParseModel, idx: int)
    requires
        st.section == Section::Slots,
    ensures
        strip_cr("[participants]"@) == "[participants]"@,
        parse_line(st, idx, "[participants]"@) == (ParseModel { section: Section::Participants, ..st }),
{
    reveal_strlit("[participants]");
    reveal_strlit("participants");
    let t = "[participants]"@;
    assert(trim(t) == t);
    lemma_find_char(t, ']', 13);
    let w = t.subrange(1, 13);
    assert(trim(w) == w);
    assert(w =~= "participants"@);
}

/// A line starting with `%` changes nothing.
proof fn lemma_comment_line(st: ParseModel, idx: int, l: Seq<char>)
    requires
        l.len() > 0,
        l[0] == '%',
    ensures
        parse_line(st, idx, l) == st,
{
    let (a, b) = lemma_trim_span(l, 0);
    assert(trim(l)[0] == '%');
}

/// The slot lines of the first `k` slots.
spec fn slot_texts(slots: Seq<Slot>, width: int, k: int) -> Seq<Seq<char>> {
    Seq::new(k as nat, |i: int| slot_text(slots[i], width, i + 1))
}

/// The participant lines of the first `k` participants.
spec fn participant_texts(ps: Seq<Participant>, width: int, k: int) -> Seq<Seq<char>> {
    Seq::new(k as nat, |i: int| participant_text(ps[i], width))
}

proof fn lemma_editor_slot_lines(slots: Seq<Slot>, width: int, k: int)
    requires
        0 <= k,
    ensures
        editor_slot_lines(slots, width, k) == joined(slot_texts(slots, width, k)),
    decreases k,
{
    reveal_strlit("\n");
    if k == 0 {
        assert(slot_texts(slots, width, k) =~= Seq::<Seq<char>>::empty());
    } else {
        lemma_editor_slot_lines(slots, width, k - 1);
        assert(slot_texts(slots, width, k).drop_last() =~= slot_texts(slots, width, k - 1));
        assert(editor_slot_lines(slots, width, k) =~= joined(slot_texts(slots, width, k)));
    }
}

proof fn lemma_editor_participant_lines(ps: Seq<Participant>, width: int, k: int)
    requires
        0 <= k,
    ensures
        editor_participant_lines(ps, width, k) == joined(participant_texts(ps, width, k)),
    decreases k,
{
    reveal_strlit("\n");
    if k == 0 {
        assert(participant_texts(ps, width, k) =~= Seq::<Seq<char>>::empty());
    } else {
        lemma_editor_participant_lines(ps, width, k - 1);
        assert(participant_texts(ps, width, k).drop_last() =~= participant_texts(ps, width, k - 1));
        assert(editor_participant_line(ps[k - 1], width) =~= participant_text(ps[k - 1], width) + seq!['\n']);
        assert(editor_participant_lines(ps, width, k) =~= joined(participant_texts(ps, width, k)));
    }
}

/// The lines of the editor text, before the parser drops a final carriage return.
spec fn editor_lines(slots: Seq<Slot>, ps: Seq<Participant>) -> Seq<Seq<char>> {
    seq!["[slots]"@] + slot_texts(slots, slot_name_width(slots, slots.len() as int), slots.len() as int) + seq![
        Seq::empty(),
        "[participants]"@,
        "% slots:"@ + slot_numbers(slots.len() as int),
    ] + participant_texts(ps, mail_width(ps, ps.len() as int), ps.len() as int)
}

proof fn lemma_editor_text_joined(slots: Seq<Slot>, ps: Seq<Participant>)
    ensures
        editor_text(slots, ps) == joined(editor_lines(slots, ps)),
{
    reveal_strlit("\n");
    reveal_strlit("[slots]\n");
    reveal_strlit("[slots]");
    reveal_strlit("\n[participants]\n");
    reveal_strlit("[participants]");
    let n = slots.len() as int;
    let m = ps.len() as int;
    let sl = slot_texts(slots, slot_name_width(slots, n), n);
    let pl = participant_texts(ps, mail_width(ps, m), m);
    let mid = seq![Seq::<char>::empty(), "[participants]"@, "% slots:"@ + slot_numbers(n)];
    lemma_editor_slot_lines(slots, slot_name_width(slots, n), n);
    lemma_editor_participant_lines(ps, mail_width(ps, m), m);
    lemma_joined_concat(seq!["[slots]"@], sl);
    lemma_joined_concat(seq!["[slots]"@] + sl, mid);
    lemma_joined_concat(seq!["[slots]"@] + sl + mid, pl);
    let e = Seq::<Seq<char>>::empty();
    let m1 = seq![Seq::<char>::empty()];
    let m2 = seq![Seq::<char>::empty(), "[participants]"@];
    assert(seq!["[slots]"@].drop_last() =~= e);
    assert(seq!["[slots]"@].last() == "[slots]"@);
    assert(joined(seq!["[slots]"@]) == joined(e) + "[slots]"@ + seq!['\n']);
    assert(joined(seq!["[slots]"@]) =~= "[slots]"@ + seq!['\n']);
    assert(m1.drop_last() =~= e);
    assert(joined(m1) == joined(e) + Seq::<char>::empty() + seq!['\n']);
    assert(joined(m1) =~= seq!['\n']);
    assert(m2.drop_last() =~= m1);
    assert(joined(m2) == joined(m1) + "[participants]"@ + seq!['\n']);
    assert(mid.drop_last() =~= m2);
    assert(joined(mid) == joined(m2) + ("% slots:"@ + slot_numbers(n)) + seq!['\n']);
    assert(joined(mid) =~= seq!['\n'] + "[participants]"@ + seq!['\n'] + "% slots:"@ + slot_numbers(n) + seq!['\n']);
    assert("[slots]\n"@ =~= "[slots]"@ + seq!['\n']);
    assert("\n[participants]\n"@ =~= seq!['\n'] + "[participants]"@ + seq!['\n']);
    assert(editor_text(slots, ps) =~= joined(editor_lines(slots, ps)));
}

/// What the law asks of the data: names and mails that a quote or a newline would cut, ids
/// on one line, no slot with its most below its least, and no negative wish.
pub open spec fn editor_safe(slots: Seq<Slot>, ps: Seq<Participant>) -> bool {
    &&& forall|i: int|
        0 <= i < slots.len() ==> {
            &&& lacks(#[trigger] slots[i].name@, '"')
            &&& lacks(slots[i].name@, '\n')
            &&& slots[i].vmin <= slots[i].vmax
        }
    &&& forall|i: int|
        0 <= i < ps.len() ==> {
            &&& lacks(#[trigger] ps[i].mail@, '"')
            &&& lacks(ps[i].mail@, '\n')
            &&& lacks(ps[i].id@, '\n')
            &&& forall|k: int| 0 <= k < ps[i].wish@.len() ==> #[trigger] ps[i].wish@[k] >= 0
        }
}

/// What a clean read-back asks of the data besides `editor_safe`: one wish value per slot,
/// no mail twice, a sum of maxima that fits in a `u32`, and a number of participants between
/// the sum of the minima and the sum of the maxima.
pub open spec fn editor_consistent(slots: Seq<Slot>, ps: Seq<Participant>) -> bool {
    let sv = slots.map_values(|s: Slot| slot_view(s));
    &&& forall|i: int| 0 <= i < ps.len() ==> #[trigger] ps[i].wish@.len() == slots.len()
    &&& forall|i: int, j: int| 0 <= i < j < ps.len() ==> #[trigger] ps[i].mail@ != #[trigger] ps[j].mail@
    &&& total_max(sv) <= u32::MAX
    &&& total_min(sv) <= ps.len() <= total_max(sv)
}

/// The lines the parser sees in the editor text.
spec fn read_lines(slots: Seq<Slot>, ps: Seq<Participant>) -> Seq<Seq<char>> {
    editor_lines(slots, ps).map_values(|l: Seq<char>| strip_cr(l))
}

proof fn lemma_editor_text_lines(slots: Seq<Slot>, ps: Seq<Participant>)
    requires
        editor_safe(slots, ps),
    ensures
        lines(editor_text(slots, ps)) == read_lines(slots, ps),
{
    reveal_strlit("[slots]");
    reveal_strlit("[participants]");
    reveal_strlit("% slots:");
    let ls = editor_lines(slots, ps);
    let n = slots.len() as int;
    let m = ps.len() as int;
    lemma_editor_text_joined(slots, ps);
    lemma_slot_numbers_lacks(n);
    lemma_lacks_concat("% slots:"@, slot_numbers(n), '\n');
    assert forall|i: int| 0 <= i < ls.len() implies lacks(#[trigger] ls[i], '\n') by {
        if 1 <= i < 1 + n {
            lemma_slot_text_lacks(slots[i - 1], slot_name_width(slots, n), i);
        } else if 4 + n <= i {
            lemma_participant_text_lacks(ps[i - 4 - n], mail_width(ps, m));
        }
    }
    lemma_lines_joined(ls);
}

/// Parsing one more line.
proof fn lemma_parse_lines_push(ls: Seq<Seq<char>>, l: Seq<char>)
    ensures
        parse_lines(ls.push(l)) == (if parse_lines(ls).stopped {
            parse_lines(ls)
        } else {
            parse_line(parse_lines(ls), ls.len() as int, l)
        }),
{
    assert(ls.push(l).drop_last() =~= ls);
}

/// After the header and the first `k` slot lines, the parser holds the first `k` slots.
proof fn lemma_parse_slot_lines(slots: Seq<Slot>, ps: Seq<Participant>, k: int)
    requires
        editor_safe(slots, ps),
        0 <= k <= slots.len(),
    ensures
        ({
            let st = parse_lines(read_lines(slots, ps).take(1 + k));
            &&& st.section == Section::Slots
            &&& !st.stopped
            &&& st.errors.len() == 0
            &&& st.slots == slots.take(k).map_values(|s: Slot| slot_view(s))
            &&& st.participants == Seq::<(Seq<char>, Seq<i32>)>::empty()
        }),
    decreases k,
{
    let ls = read_lines(slots, ps);
    let n = slots.len() as int;
    if k == 0 {
        lemma_slots_header(initial_model(), 0);
        assert(ls[0] == strip_cr("[slots]"@));
        lemma_parse_lines_push(Seq::empty(), ls[0]);
        assert(ls.take(1) =~= Seq::<Seq<char>>::empty().push(ls[0]));
        assert(slots.take(0).map_values(|s: Slot| slot_view(s)) =~= Seq::<(Seq<char>, u32, u32)>::empty());
    } else {
        lemma_parse_slot_lines(slots, ps, k - 1);
        let w = slot_name_width(slots, n);
        let st = parse_lines(ls.take(k));
        assert(ls[k] == strip_cr(slot_text(slots[k - 1], w, k)));
        lemma_slot_line_parses(st, k, slots[k - 1], w, k);
        assert(ls.take(k + 1) =~= ls.take(k).push(ls[k]));
        lemma_parse_lines_push(ls.take(k), ls[k]);
        assert(slots.take(k).map_values(|s: Slot| slot_view(s)) =~= slots.take(k - 1).map_values(
            |s: Slot| slot_view(s),
        ).push(slot_view(slots[k - 1])));
    }
}

/// After the slots, the blank line, the participants' header and the comment, the parser is
/// in the participants' section with every slot.
proof fn lemma_parse_middle_lines(slots: Seq<Slot>, ps: Seq<Participant>)
    requires
        editor_safe(slots, ps),
    ensures
        ({
            let st = parse_lines(read_lines(slots, ps).take(slots.len() + 4int));
            &&& st.section == Section::Participants
            &&& !st.stopped
            &&& st.errors.len() == 0
            &&& st.slots == slots.map_values(|s: Slot| slot_view(s))
            &&& st.participants == Seq::<(Seq<char>, Seq<i32>)>::empty()
        }),
{
    reveal_strlit("% slots:");
    let ls = read_lines(slots, ps);
    let n = slots.len() as int;
    lemma_parse_slot_lines(slots, ps, n);
    assert(slots.take(n) =~= slots);
    let st1 = parse_lines(ls.take(n + 1));
    assert(ls[n + 1] == strip_cr(Seq::<char>::empty()));
    assert(ls[n + 1] =~= Seq::<char>::empty());
    assert(ls.take(n + 2) =~= ls.take(n + 1).push(ls[n + 1]));
    lemma_parse_lines_push(ls.take(n + 1), ls[n + 1]);
    assert(trim(Seq::<char>::empty()) =~= Seq::<char>::empty());
    let st2 = parse_lines(ls.take(n + 2));
    assert(st2 == st1);
    assert(ls[n + 2] == strip_cr("[participants]"@));
    lemma_participants_header(st2, n + 2);
    assert(ls.take(n + 3) =~= ls.take(n + 2).push(ls[n + 2]));
    lemma_parse_lines_push(ls.take(n + 2), ls[n + 2]);
    let st3 = parse_lines(ls.take(n + 3));
    let c = "% slots:"@ + slot_numbers(n);
    assert(ls[n + 3] == strip_cr(c));
    assert(c[0] == '%');
    assert(strip_cr(c).len() > 0 && strip_cr(c)[0] == '%');
    lemma_comment_line(st3, n + 3, ls[n + 3]);
    assert(ls.take(n + 4) =~= ls.take(n + 3).push(ls[n + 3]));
    lemma_parse_lines_push(ls.take(n + 3), ls[n + 3]);
}

/// After the first `k` participant lines, the parser holds the first `k` participants.
proof fn lemma_parse_participant_lines(slots: Seq<Slot>, ps: Seq<Participant>, k: int)
    requires
        editor_safe(slots, ps),
        0 <= k <= ps.len(),
    ensures
        ({
            let st = parse_lines(read_lines(slots, ps).take(slots.len() + 4 + k));
            &&& st.section == Section::Participants
            &&& !st.stopped
            &&& st.slots == slots.map_values(|s: Slot| slot_view(s))
            &&& st.participants == ps.take(k).map_values(|p: Participant| (p.mail@, p.wish@))
            &&& editor_consistent(slots, ps) ==> st.errors.len() == 0
        }),
    decreases k,
{
    let ls = read_lines(slots, ps);
    let n = slots.len() as int;
    let m = ps.len() as int;
    if k == 0 {
        lemma_parse_middle_lines(slots, ps);
        assert(ps.take(0).map_values(|p: Participant| (p.mail@, p.wish@)) =~= Seq::<(Seq<char>, Seq<i32>)>::empty());
    } else {
        lemma_parse_participant_lines(slots, ps, k - 1);
        let i = n + 4 + k - 1;
        let st = parse_lines(ls.take(i));
        let p = ps[k - 1];
        assert(ls[i] == strip_cr(participant_text(p, mail_width(ps, m))));
        lemma_participant_line_parses(st, i, p, mail_width(ps, m));
        if editor_consistent(slots, ps) {
            let sv = slots.map_values(|s: Slot| slot_view(s));
            lemma_parse_lines_inv(ls.take(i));
            assert forall|j: int| 0 <= j < sv.len() implies #[trigger] sv[j].1 <= sv[j].2 by {
                assert(sv[j] == slot_view(slots[j]));
            }
            lemma_sums_fit(sv);
            assert(st.sum_vmax == total_max(sv));
            if has_mail(st.participants, p.mail@) {
                let j = choose|j: int| 0 <= j < st.participants.len() && #[trigger] st.participants[j].0 == p.mail@;
                assert(st.participants[j].0 == ps[j].mail@);
                assert(ps[j].mail@ != ps[k - 1].mail@);
            }
        }
        assert(ls.take(i + 1) =~= ls.take(i).push(ls[i]));
        lemma_parse_lines_push(ls.take(i), ls[i]);
        assert(ps.take(k).map_values(|p: Participant| (p.mail@, p.wish@)) =~= ps.take(k - 1).map_values(
            |p: Participant| (p.mail@, p.wish@),
        ).push((p.mail@, p.wish@)));
    }
}

/// Reading the editor text back gives the slots and participants it was written from:
/// each slot's name and bounds, and each participant's mail and wishes, in order. This holds
/// for names and mails without a double quote or a newline, ids without a newline, bounds
/// in order and wishes that are not negative. When, besides, every participant has one wish
/// value per slot, no mail occurs twice and the number of participants lies between the sums
/// of the minima and of the maxima (which fit in a `u32`), the text reads back without error.
pub proof fn lemma_editor_text_reads_back(slots: Seq<Slot>, ps: Seq<Participant>)
    requires
        editor_safe(slots, ps),
    ensures
        parse_spec(editor_text(slots, ps)).slots == slots.map_values(|s: Slot| slot_view(s)),
        parse_spec(editor_text(slots, ps)).participants == ps.map_values(|p: Participant| (p.mail@, p.wish@)),
        editor_consistent(slots, ps) ==> parse_spec(editor_text(slots, ps)).errors.len() == 0,
{
    let ls = read_lines(slots, ps);
    lemma_editor_text_lines(slots, ps);
    lemma_parse_participant_lines(slots, ps, ps.len() as int);
    assert(ls.take(slots.len() + 4int + ps.len()) =~= ls);
    assert(ps.take(ps.len() as int) =~= ps);
    if editor_consistent(slots, ps) {
        let sv = slots.map_values(|s: Slot| slot_view(s));
        let st = parse_lines(ls);
        lemma_parse_lines_inv(ls);
        assert forall|j: int| 0 <= j < sv.len() implies #[trigger] sv[j].1 <= sv[j].2 by {
            assert(sv[j] == slot_view(slots[j]));
        }
        lemma_sums_fit(sv);
        assert(st.sum_vmin == total_min(sv));
    }
}

} // verus!
