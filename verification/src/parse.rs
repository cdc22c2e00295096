//! The administrator's text format:
//!
//! ```text
//! [slots]
//! "Slot Name" min max
//! [participants]
//! "email@example.com" 0 1 2 ...
//! ```
//!
//! Lines starting with `%` or `#` are comments.
use vstd::prelude::*;
use crate::model::Slot;
use crate::text::{
    chars_of, chars_eq, string_from_chars, push_str, push_chars, trim, trim_chars, trim_bounds, find_char,
    find_in, lemma_find_char_bounds, lines, lines_of, split_ws, words_of,
};
use crate::numbers::{dec, parse_u32_spec, parse_i32_spec, parse_u32, parse_i32, push_decimal};
use crate::fairness::{is_fair, is_fair_wish};

verus! {

#[derive(Debug, Clone)]
pub struct ParseError {
    pub line: usize,
    pub message: String,
}

#[derive(Debug, Clone)]
pub struct ParseWarning {
    pub line: usize,
    pub message: String,
}

#[derive(Debug, Clone)]
pub struct ParsedParticipant {
    pub mail: String,
    pub wish: Vec<i32>,
}

#[derive(Debug, Clone)]
pub struct ParseResult {
    pub slots: Vec<Slot>,
    pub participants: Vec<ParsedParticipant>,
    pub errors: Vec<ParseError>,
    pub warnings: Vec<ParseWarning>,
}

/// The section the parser is in.
#[derive(Clone, Copy, PartialEq, Eq, Structural)]
pub enum Section {
    Before,
    Slots,
    Participants,
}

/// What the parser has gathered so far.
#[verifier::ext_equal]
pub struct ParseModel {
    pub slots: Seq<(Seq<char>, u32, u32)>,
    pub participants: Seq<(Seq<char>, Seq<i32>)>,
    pub errors: Seq<(int, Seq<char>)>,
    pub warnings: Seq<(int, Seq<char>)>,
    pub section: Section,
    pub sum_vmin: u32,
    pub sum_vmax: u32,
    pub stopped: bool,
}

pub open spec fn slot_view(s: Slot) -> (Seq<char>, u32, u32) {
    (s.name@, s.vmin, s.vmax)
}

pub open spec fn participant_view(p: ParsedParticipant) -> (Seq<char>, Seq<i32>) {
    (p.mail@, p.wish@)
}

pub open spec fn error_view(e: ParseError) -> (int, Seq<char>) {
    (e.line as int, e.message@)
}

pub open spec fn warning_view(w: ParseWarning) -> (int, Seq<char>) {
    (w.line as int, w.message@)
}

impl ParseResult {
    pub open spec fn slots_view(&self) -> Seq<(Seq<char>, u32, u32)> {
        self.slots@.map_values(|s: Slot| slot_view(s))
    }

    pub open spec fn participants_view(&self) -> Seq<(Seq<char>, Seq<i32>)> {
        self.participants@.map_values(|p: ParsedParticipant| participant_view(p))
    }

    pub open spec fn errors_view(&self) -> Seq<(int, Seq<char>)> {
        self.errors@.map_values(|e: ParseError| error_view(e))
    }

    pub open spec fn warnings_view(&self) -> Seq<(int, Seq<char>)> {
        self.warnings@.map_values(|w: ParseWarning| warning_view(w))
    }

    /// The result holds exactly what the model holds.
    pub open spec fn matches(&self, m: ParseModel) -> bool {
        &&& self.slots_view() == m.slots
        &&& self.participants_view() == m.participants
        &&& self.errors_view() == m.errors
        &&& self.warnings_view() == m.warnings
    }
}

pub open spec fn initial_model() -> ParseModel {
    ParseModel {
        slots: Seq::empty(),
        participants: Seq::empty(),
        errors: Seq::empty(),
        warnings: Seq::empty(),
        section: Section::Before,
        sum_vmin: 0,
        sum_vmax: 0,
        stopped: false,
    }
}

pub open spec fn add_error(st: ParseModel, line: int, msg: Seq<char>) -> ParseModel {
    ParseModel { errors: st.errors.push((line, msg)), ..st }
}

pub open spec fn add_warning(st: ParseModel, line: int, msg: Seq<char>) -> ParseModel {
    ParseModel { warnings: st.warnings.push((line, msg)), ..st }
}

/// Records an error that ends the parse.
pub open spec fn stop_with(st: ParseModel, line: int, msg: Seq<char>) -> ParseModel {
    ParseModel { stopped: true, ..add_error(st, line, msg) }
}

pub open spec fn not_a_number(tok: Seq<char>) -> Seq<char> {
    "'"@ + tok + "' is not a valid number"@
}

pub open spec fn not_non_negative(tok: Seq<char>) -> Seq<char> {
    "'"@ + tok + "' is not a non-negative number"@
}

pub open spec fn wish_count_message(expected: nat, got: nat) -> Seq<char> {
    "Expected "@ + dec(expected) + " wish values (one per slot), got "@ + dec(got)
}

/// A line starting with a quoted string: the string and the trimmed rest of the line.
pub open spec fn quoted(t: Seq<char>) -> Option<(Seq<char>, Seq<char>)> {
    if t.len() > 0 && t[0] == '"' {
        let rest = t.drop_first();
        let end = find_char(rest, '"');
        if end < rest.len() {
            Some((rest.take(end), trim(rest.skip(end + 1))))
        } else {
            None
        }
    } else {
        None
    }
}

/// `rest` cut at its first `%`, or else at its first `#`.
pub open spec fn strip_comment(rest: Seq<char>) -> Seq<char> {
    let i = find_char(rest, '%');
    let j = find_char(rest, '#');
    if i < rest.len() {
        rest.take(i)
    } else if j < rest.len() {
        rest.take(j)
    } else {
        rest
    }
}

/// The non-negative wish values among the tokens, in order.
pub open spec fn wish_values(tokens: Seq<Seq<char>>) -> Seq<i32>
    decreases tokens.len(),
{
    if tokens.len() == 0 {
        Seq::empty()
    } else {
        let w = wish_values(tokens.drop_last());
        match parse_i32_spec(tokens.last()) {
            Some(v) => if v >= 0 {
                w.push(v)
            } else {
                w
            },
            None => w,
        }
    }
}

/// The messages about tokens that are not non-negative wish values, in order.
pub open spec fn wish_errors(tokens: Seq<Seq<char>>) -> Seq<Seq<char>>
    decreases tokens.len(),
{
    if tokens.len() == 0 {
        Seq::empty()
    } else {
        let e = wish_errors(tokens.drop_last());
        match parse_i32_spec(tokens.last()) {
            Some(v) => if v >= 0 {
                e
            } else {
                e.push(not_non_negative(tokens.last()))
            },
            None => e.push(not_a_number(tokens.last())),
        }
    }
}

/// Records each message as an error on `line`.
pub open spec fn add_errors(st: ParseModel, line: int, msgs: Seq<Seq<char>>) -> ParseModel {
    ParseModel { errors: st.errors + msgs.map_values(|m: Seq<char>| (line, m)), ..st }
}

pub open spec fn has_mail(ps: Seq<(Seq<char>, Seq<i32>)>, mail: Seq<char>) -> bool {
    exists|i: int| 0 <= i < ps.len() && #[trigger] ps[i].0 == mail
}

/// A `"name" min max` line.
pub open spec fn slot_line(st: ParseModel, idx: int, name: Seq<char>, tokens: Seq<Seq<char>>) -> ParseModel {
    if tokens.len() < 2 {
        add_error(st, idx, "Expected: \"name\" min max"@)
    } else {
        match parse_u32_spec(tokens[0]) {
            None => add_error(st, idx, not_a_number(tokens[0])),
            Some(vmin) => match parse_u32_spec(tokens[1]) {
                None => add_error(st, idx, not_a_number(tokens[1])),
                Some(vmax) => if vmax < vmin {
                    add_error(st, idx, "max must be >= min"@)
                } else {
                    ParseModel {
                        slots: st.slots.push((name, vmin, vmax)),
                        sum_vmin: vstd::wrapping::u32_specs::wrapping_add(st.sum_vmin, vmin),
                        sum_vmax: vstd::wrapping::u32_specs::wrapping_add(st.sum_vmax, vmax),
                        ..st
                    }
                },
            },
        }
    }
}

/// A `"mail" w1 w2 ...` line.
pub open spec fn participant_line(st: ParseModel, idx: int, name: Seq<char>, tokens: Seq<Seq<char>>) -> ParseModel {
    let wish = wish_values(tokens);
    let st1 = add_errors(st, idx, wish_errors(tokens));
    let st2 = if has_mail(st.participants, name) {
        add_error(st1, idx, "This email appears multiple times"@)
    } else {
        st1
    };
    let st3 = if wish.len() != st.slots.len() {
        add_error(st2, idx, wish_count_message(st.slots.len(), wish.len()))
    } else {
        st2
    };
    let st4 = if st.participants.len() + 1 > st.sum_vmax {
        add_error(st3, idx, "Too many participants for the maximal bounds"@)
    } else {
        st3
    };
    let st5 = if st4.errors.len() == 0 && wish.len() == st.slots.len() && !is_fair(wish) {
        add_warning(st4, idx, "This wish is not fair"@)
    } else {
        st4
    };
    ParseModel { participants: st5.participants.push((name, wish)), ..st5 }
}

/// A `[section]` line (`t` is trimmed and starts with `[`).
pub open spec fn header_line(st: ParseModel, idx: int, t: Seq<char>) -> ParseModel {
    let end = find_char(t, ']');
    if end < t.len() {
        let word = trim(t.subrange(1, end));
        match st.section {
            Section::Before => if word == "slots"@ {
                ParseModel { section: Section::Slots, ..st }
            } else {
                stop_with(st, idx, "Expected [slots] section first"@)
            },
            Section::Slots => if word == "participants"@ {
                ParseModel { section: Section::Participants, ..st }
            } else {
                stop_with(st, idx, "Expected [participants] section"@)
            },
            Section::Participants => stop_with(st, idx, "Unexpected section"@),
        }
    } else {
        stop_with(st, idx, "Unclosed section bracket"@)
    }
}

/// What line `idx` does to the parser's state.
pub open spec fn parse_line(st: ParseModel, idx: int, line: Seq<char>) -> ParseModel {
    let t = trim(line);
    if t.len() == 0 || t[0] == '%' || t[0] == '#' {
        st
    } else if t[0] == '[' {
        header_line(st, idx, t)
    } else if st.section == Section::Before {
        add_warning(st, idx, "Line ignored: not in a section. [slots] missing?"@)
    } else if t[0] != '"' {
        add_error(st, idx, "Expected a quoted string"@)
    } else {
        match quoted(t) {
            None => add_error(st, idx, "Invalid quoted string"@),
            Some((name, rest)) => {
                let tokens = split_ws(strip_comment(rest));
                if st.section == Section::Slots {
                    slot_line(st, idx, name, tokens)
                } else {
                    participant_line(st, idx, name, tokens)
                }
            },
        }
    }
}

/// The state after the given lines, stopping at the first line that ends the parse.
pub open spec fn parse_lines(ls: Seq<Seq<char>>) -> ParseModel
    decreases ls.len(),
{
    if ls.len() == 0 {
        initial_model()
    } else {
        let st = parse_lines(ls.drop_last());
        if st.stopped {
            st
        } else {
            parse_line(st, ls.len() - 1, ls.last())
        }
    }
}

/// The result of parsing `text`: after all lines, too few participants for the slots'
/// minimums is an error on the line after the last one.
pub open spec fn parse_spec(text: Seq<char>) -> ParseModel {
    let ls = lines(text);
    let st = parse_lines(ls);
    if !st.stopped && st.errors.len() == 0 && st.participants.len() < st.sum_vmin {
        add_error(st, ls.len() as int, "Not enough participants for the minimal bounds"@)
    } else {
        st
    }
}

proof fn lemma_parse_lines_stopped(ls: Seq<Seq<char>>, i: int, k: int)
    requires
        0 <= i <= k <= ls.len(),
        parse_lines(ls.take(i)).stopped,
    ensures
        parse_lines(ls.take(k)) == parse_lines(ls.take(i)),
    decreases k - i,
{
    if k > i {
        lemma_parse_lines_stopped(ls, i, k - 1);
        assert(ls.take(k).drop_last() =~= ls.take(k - 1));
    }
}

/// The wrapping sum of the slots' maxima.
pub open spec fn vmax_sum(slots: Seq<(Seq<char>, u32, u32)>) -> u32
    decreases slots.len(),
{
    if slots.len() == 0 {
        0
    } else {
        vstd::wrapping::u32_specs::wrapping_add(vmax_sum(slots.drop_last()), slots.last().2)
    }
}

/// The wrapping sum of the slots' minima.
pub open spec fn vmin_sum(slots: Seq<(Seq<char>, u32, u32)>) -> u32
    decreases slots.len(),
{
    if slots.len() == 0 {
        0
    } else {
        vstd::wrapping::u32_specs::wrapping_add(vmin_sum(slots.drop_last()), slots.last().1)
    }
}

/// The sum of the slots' minima.
pub open spec fn total_min(slots: Seq<(Seq<char>, u32, u32)>) -> int
    decreases slots.len(),
{
    if slots.len() == 0 {
        0
    } else {
        total_min(slots.drop_last()) + slots.last().1
    }
}

/// The sum of the slots' maxima.
pub open spec fn total_max(slots: Seq<(Seq<char>, u32, u32)>) -> int
    decreases slots.len(),
{
    if slots.len() == 0 {
        0
    } else {
        total_max(slots.drop_last()) + slots.last().2
    }
}

/// No mail occurs twice among the participants.
pub open spec fn mails_distinct(ps: Seq<(Seq<char>, Seq<i32>)>) -> bool {
    forall|i: int, j: int| 0 <= i < j < ps.len() ==> #[trigger] ps[i].0 != #[trigger] ps[j].0
}

/// What holds of the parser's state after any lines: every slot's minimum is at most its
/// maximum, wish values are never negative, participants come only in their section, a
/// stopped parse has an error, and while there is no error every participant has one wish
/// per slot, no mail occurs twice and there are at most as many participants as the sum of
/// maxima.
pub open spec fn parse_inv(m: ParseModel) -> bool {
    &&& forall|j: int| 0 <= j < m.slots.len() ==> #[trigger] m.slots[j].1 <= m.slots[j].2
    &&& forall|i: int, k: int|
        0 <= i < m.participants.len() && 0 <= k < m.participants[i].1.len() ==> #[trigger] m.participants[i].1[k] >= 0
    &&& m.section != Section::Participants ==> m.participants.len() == 0
    &&& m.stopped ==> m.errors.len() > 0
    &&& m.errors.len() == 0 ==> forall|i: int|
        0 <= i < m.participants.len() ==> #[trigger] m.participants[i].1.len() == m.slots.len()
    &&& m.errors.len() == 0 ==> mails_distinct(m.participants)
    &&& m.errors.len() == 0 ==> m.participants.len() <= m.sum_vmax
    &&& m.sum_vmax == vmax_sum(m.slots)
    &&& m.sum_vmin == vmin_sum(m.slots)
}

proof fn lemma_wish_values_nonneg(tokens: Seq<Seq<char>>)
    ensures
        forall|k: int| 0 <= k < wish_values(tokens).len() ==> #[trigger] wish_values(tokens)[k] >= 0,
    decreases tokens.len(),
{
    if tokens.len() > 0 {
        lemma_wish_values_nonneg(tokens.drop_last());
        let w = wish_values(tokens.drop_last());
        assert forall|k: int| 0 <= k < wish_values(tokens).len() implies #[trigger] wish_values(tokens)[k] >= 0 by {
            if k < w.len() {
                assert(wish_values(tokens)[k] == w[k]);
            }
        }
    }
}

proof fn lemma_parse_line_inv(st: ParseModel, idx: int, line: Seq<char>)
    requires
        parse_inv(st),
    ensures
        parse_inv(parse_line(st, idx, line)),
        st.errors.len() <= parse_line(st, idx, line).errors.len(),
{
    let t = trim(line);
    if t.len() == 0 || t[0] == '%' || t[0] == '#' {
    } else if t[0] == '[' {
    } else if st.section == Section::Before {
    } else if t[0] != '"' {
    } else {
        match quoted(t) {
            None => {},
            Some((name, rest)) => {
                let tokens = split_ws(strip_comment(rest));
                if st.section == Section::Slots {
                    let r = slot_line(st, idx, name, tokens);
                    if r.slots.len() > st.slots.len() {
                        assert(r.slots.drop_last() =~= st.slots);
                        assert forall|j: int| 0 <= j < r.slots.len() implies #[trigger] r.slots[j].1 <= r.slots[j].2 by {
                            if j < st.slots.len() {
                                assert(r.slots[j] == st.slots[j]);
                            }
                        }
                    }
                } else {
                    lemma_wish_values_nonneg(tokens);
                    let wish = wish_values(tokens);
                    let r = participant_line(st, idx, name, tokens);
                    assert forall|i: int, k: int|
                        0 <= i < r.participants.len() && 0 <= k < r.participants[i].1.len() implies #[trigger] r.participants[i].1[k] >= 0 by {
                        if i < st.participants.len() {
                            assert(r.participants[i] == st.participants[i]);
                        }
                    }
                    if r.errors.len() == 0 {
                        assert(!has_mail(st.participants, name));
                        assert forall|i: int, j: int| 0 <= i < j < r.participants.len() implies #[trigger] r.participants[i].0
                            != #[trigger] r.participants[j].0 by {
                            assert(r.participants[i] == st.participants[i]);
                            if j < st.participants.len() {
                                assert(r.participants[j] == st.participants[j]);
                            } else {
                                assert(r.participants[j].0 == name);
                                if st.participants[i].0 == name {
                                    assert(has_mail(st.participants, name));
                                }
                            }
                        }
                    }
                }
            },
        }
    }
}

pub(crate) proof fn lemma_parse_lines_inv(ls: Seq<Seq<char>>)
    ensures
        parse_inv(parse_lines(ls)),
    decreases ls.len(),
{
    if ls.len() == 0 {
    } else {
        lemma_parse_lines_inv(ls.drop_last());
        let st = parse_lines(ls.drop_last());
        if !st.stopped {
            lemma_parse_line_inv(st, ls.len() - 1, ls.last());
        }
    }
}

/// The invariant holds of the parse of any text.
pub proof fn lemma_parse_spec_inv(text: Seq<char>)
    ensures
        parse_inv(parse_spec(text)),
{
    lemma_parse_lines_inv(lines(text));
}

pub(crate) proof fn lemma_sums_fit(slots: Seq<(Seq<char>, u32, u32)>)
    requires
        forall|j: int| 0 <= j < slots.len() ==> #[trigger] slots[j].1 <= slots[j].2,
        total_max(slots) <= u32::MAX,
    ensures
        0 <= total_min(slots) <= total_max(slots),
        vmin_sum(slots) == total_min(slots),
        vmax_sum(slots) == total_max(slots),
    decreases slots.len(),
{
    if slots.len() > 0 {
        let init = slots.drop_last();
        assert forall|j: int| 0 <= j < init.len() implies #[trigger] init[j].1 <= init[j].2 by {
            assert(init[j] == slots[j]);
        }
        assert(slots.last() == slots[slots.len() - 1]);
        lemma_sums_fit(init);
    }
}

/// After a parse without errors: every slot's minimum is at most its maximum, every
/// participant has one non-negative wish value per slot, no mail occurs twice, and, where the
/// sum of the maxima fits in a `u32`, the number of participants lies between the sum of the
/// minima and the sum of the maxima.
pub proof fn lemma_clean_parse(text: Seq<char>)
    requires
        parse_spec(text).errors.len() == 0,
    ensures
        ({
            let m = parse_spec(text);
            &&& forall|j: int| 0 <= j < m.slots.len() ==> #[trigger] m.slots[j].1 <= m.slots[j].2
            &&& forall|i: int| 0 <= i < m.participants.len() ==> #[trigger] m.participants[i].1.len() == m.slots.len()
            &&& forall|i: int, k: int|
                0 <= i < m.participants.len() && 0 <= k < m.participants[i].1.len() ==> #[trigger] m.participants[i].1[k]
                    >= 0
            &&& mails_distinct(m.participants)
            &&& total_max(m.slots) <= u32::MAX ==> total_min(m.slots) <= m.participants.len() <= total_max(m.slots)
        }),
{
    let ls = lines(text);
    lemma_parse_lines_inv(ls);
    let st = parse_lines(ls);
    assert(parse_spec(text) == st);
    if total_max(st.slots) <= u32::MAX {
        lemma_sums_fit(st.slots);
    }
}

/// `s[a..b]` as a new vector.
fn slice_chars(s: &[char], a: usize, b: usize) -> (r: Vec<char>)
    requires
        a <= b <= s.len(),
    ensures
        r@ == s@.subrange(a as int, b as int),
{
    let mut r: Vec<char> = Vec::new();
    let mut i: usize = a;
    while i < b
        invariant
            a <= i <= b <= s.len(),
            r@ == s@.subrange(a as int, i as int),
        decreases b - i,
    {
        r.push(s[i]);
        i = i + 1;
        assert(r@ =~= s@.subrange(a as int, i as int));
    }
    r
}

/// The quoted string at the start of `t` and the trimmed rest of the line.
fn quoted_chars(t: &[char]) -> (r: Option<(Vec<char>, Vec<char>)>)
    ensures
        match r {
            Some((a, b)) => quoted(t@) == Some((a@, b@)),
            None => quoted(t@) is None,
        },
{
    if t.len() == 0 || t[0] != '"' {
        return None;
    }
    let rest = slice_chars(t, 1, t.len());
    assert(rest@ =~= t@.drop_first());
    match find_in(rest.as_slice(), '"') {
        None => None,
        Some(end) => {
            let name = slice_chars(rest.as_slice(), 0, end);
            let after = slice_chars(rest.as_slice(), end + 1, rest.len());
            let tail = trim_chars(after.as_slice());
            assert(name@ =~= rest@.take(end as int));
            assert(after@ =~= rest@.skip(end + 1));
            Some((name, tail))
        },
    }
}

fn strip_comment_chars(rest: &[char]) -> (r: Vec<char>)
    ensures
        r@ == strip_comment(rest@),
{
    match find_in(rest, '%') {
        Some(i) => {
            let r = slice_chars(rest, 0, i);
            assert(r@ =~= rest@.take(i as int));
            r
        },
        None => match find_in(rest, '#') {
            Some(j) => {
                let r = slice_chars(rest, 0, j);
                assert(r@ =~= rest@.take(j as int));
                r
            },
            None => {
                let r = slice_chars(rest, 0, rest.len());
                assert(r@ =~= rest@);
                r
            },
        },
    }
}

/// The parser's state while it reads the lines.
struct ParseState {
    result: ParseResult,
    section: Section,
    sum_vmin: u32,
    sum_vmax: u32,
    stopped: bool,
}

impl ParseState {
    spec fn model(&self) -> ParseModel {
        ParseModel {
            slots: self.result.slots_view(),
            participants: self.result.participants_view(),
            errors: self.result.errors_view(),
            warnings: self.result.warnings_view(),
            section: self.section,
            sum_vmin: self.sum_vmin,
            sum_vmax: self.sum_vmax,
            stopped: self.stopped,
        }
    }

    fn error(&mut self, line: usize, message: String)
        ensures
            final(self).model() == add_error(old(self).model(), line as int, message@),
    {
        let ghost before = self.result.errors@;
        self.result.errors.push(ParseError { line, message });
        assert(self.result.errors@.map_values(|e: ParseError| error_view(e)) =~= before.map_values(
            |e: ParseError| error_view(e),
        ).push((line as int, message@)));
    }

    fn warning(&mut self, line: usize, message: String)
        ensures
            final(self).model() == add_warning(old(self).model(), line as int, message@),
    {
        let ghost before = self.result.warnings@;
        self.result.warnings.push(ParseWarning { line, message });
        assert(self.result.warnings@.map_values(|w: ParseWarning| warning_view(w)) =~= before.map_values(
            |w: ParseWarning| warning_view(w),
        ).push((line as int, message@)));
    }

    fn stop(&mut self, line: usize, message: String)
        ensures
            final(self).model() == stop_with(old(self).model(), line as int, message@),
    {
        self.error(line, message);
        self.stopped = true;
    }
}

/// A message quoting a token: `'tok'` followed by `tail`.
fn token_message(tok: &[char], tail: &str) -> (m: String)
    ensures
        m@ == "'"@ + tok@ + tail@,
{
    let mut v: Vec<char> = Vec::new();
    push_str(&mut v, "'");
    push_chars(&mut v, tok);
    push_str(&mut v, tail);
    string_from_chars(v.as_slice())
}

fn wish_count_text(expected: usize, got: usize) -> (m: String)
    ensures
        m@ == wish_count_message(expected as nat, got as nat),
{
    let mut v: Vec<char> = Vec::new();
    push_str(&mut v, "Expected ");
    push_decimal(&mut v, expected as u64);
    push_str(&mut v, " wish values (one per slot), got ");
    push_decimal(&mut v, got as u64);
    string_from_chars(v.as_slice())
}

fn slot_line_exec(st: &mut ParseState, idx: usize, name: &[char], tokens: &Vec<Vec<char>>)
    ensures
        final(st).model() == slot_line(old(st).model(), idx as int, name@, tokens@.map_values(|w: Vec<char>| w@)),
{
    let ghost tv = tokens@.map_values(|w: Vec<char>| w@);
    if tokens.len() < 2 {
        st.error(idx, String::from_str("Expected: \"name\" min max"));
        return;
    }
    assert(tv[0] == tokens[0]@ && tv[1] == tokens[1]@);
    let vmin = match parse_u32(tokens[0].as_slice()) {
        Some(v) => v,
        None => {
            st.error(idx, token_message(tokens[0].as_slice(), "' is not a valid number"));
            return;
        },
    };
    let vmax = match parse_u32(tokens[1].as_slice()) {
        Some(v) => v,
        None => {
            st.error(idx, token_message(tokens[1].as_slice(), "' is not a valid number"));
            return;
        },
    };
    if vmax < vmin {
        st.error(idx, String::from_str("max must be >= min"));
        return;
    }
    st.sum_vmin = st.sum_vmin.wrapping_add(vmin);
    st.sum_vmax = st.sum_vmax.wrapping_add(vmax);
    let ghost before = st.result.slots@;
    st.result.slots.push(Slot { name: string_from_chars(name), vmin, vmax });
    assert(st.result.slots@.map_values(|s: Slot| slot_view(s)) =~= before.map_values(|s: Slot| slot_view(s)).push(
        (name@, vmin, vmax),
    ));
}

fn participant_line_exec(st: &mut ParseState, idx: usize, name: &[char], tokens: &Vec<Vec<char>>)
    ensures
        final(st).model() == participant_line(
            old(st).model(),
            idx as int,
            name@,
            tokens@.map_values(|w: Vec<char>| w@),
        ),
{
    let ghost tv = tokens@.map_values(|w: Vec<char>| w@);
    let ghost st0 = st.model();
    let mut wish: Vec<i32> = Vec::new();
    let mut k: usize = 0;
    assert(tv.take(0) =~= Seq::<Seq<char>>::empty());
    assert(add_errors(st0, idx as int, wish_errors(tv.take(0))) =~= st0);
    while k < tokens.len()
        invariant
            k <= tokens.len(),
            tv == tokens@.map_values(|w: Vec<char>| w@),
            wish@ == wish_values(tv.take(k as int)),
            st.model() == add_errors(st0, idx as int, wish_errors(tv.take(k as int))),
        decreases tokens.len() - k,
    {
        let tok = &tokens[k];
        assert(tv.take(k + 1).drop_last() =~= tv.take(k as int));
        assert(tv.take(k + 1).last() == tok@);
        let ghost errs = wish_errors(tv.take(k as int));
        match parse_i32(tok.as_slice()) {
            Some(v) => {
                if v >= 0 {
                    wish.push(v);
                } else {
                    st.error(idx, token_message(tok.as_slice(), "' is not a non-negative number"));
                    assert(st.model() =~= add_errors(
                        st0,
                        idx as int,
                        errs.push(not_non_negative(tok@)),
                    ));
                }
            },
            None => {
                st.error(idx, token_message(tok.as_slice(), "' is not a valid number"));
                assert(st.model() =~= add_errors(st0, idx as int, errs.push(not_a_number(tok@))));
            },
        }
        k = k + 1;
    }
    assert(tv.take(tokens.len() as int) =~= tv);
    let ghost st1 = st.model();
    // A mail may appear only once.
    let mut dup = false;
    let mut i: usize = 0;
    while i < st.result.participants.len()
        invariant
            i <= st.result.participants.len(),
            st.model() == st1,
            st1.participants == st0.participants,
            dup == exists|q: int| 0 <= q < i && #[trigger] st0.participants[q].0 == name@,
        decreases st.result.participants.len() - i,
    {
        let m = chars_of(st.result.participants[i].mail.as_str());
        assert(st0.participants[i as int].0 == st.result.participants[i as int].mail@);
        if chars_eq(m.as_slice(), name) {
            dup = true;
        }
        i = i + 1;
    }
    if dup {
        st.error(idx, String::from_str("This email appears multiple times"));
    }
    if wish.len() != st.result.slots.len() {
        st.error(idx, wish_count_text(st.result.slots.len(), wish.len()));
    }
    if st.result.participants.len() >= st.sum_vmax as usize {
        st.error(idx, String::from_str("Too many participants for the maximal bounds"));
    }
    if st.result.errors.len() == 0 && wish.len() == st.result.slots.len() {
        if !is_fair_wish(wish.as_slice()) {
            st.warning(idx, String::from_str("This wish is not fair"));
        }
    }
    let ghost before = st.result.participants@;
    let ghost w = wish@;
    st.result.participants.push(ParsedParticipant { mail: string_from_chars(name), wish });
    assert(st.result.participants@.map_values(|p: ParsedParticipant| participant_view(p)) =~= before.map_values(
        |p: ParsedParticipant| participant_view(p),
    ).push((name@, w)));
}

fn header_line_exec(st: &mut ParseState, idx: usize, t: &[char])
    requires
        t@.len() > 0,
        t@[0] == '[',
    ensures
        final(st).model() == header_line(old(st).model(), idx as int, t@),
{
    match find_in(t, ']') {
        None => {
            st.stop(idx, String::from_str("Unclosed section bracket"));
        },
        Some(end) => {
            proof {
                lemma_find_char_bounds(t@, ']');
            }
            let inner = slice_chars(t, 1, end);
            let word = trim_chars(inner.as_slice());
            let slots_word = chars_of("slots");
            let participants_word = chars_of("participants");
            match st.section {
                Section::Before => {
                    if chars_eq(word.as_slice(), slots_word.as_slice()) {
                        st.section = Section::Slots;
                    } else {
                        st.stop(idx, String::from_str("Expected [slots] section first"));
                    }
                },
                Section::Slots => {
                    if chars_eq(word.as_slice(), participants_word.as_slice()) {
                        st.section = Section::Participants;
                    } else {
                        st.stop(idx, String::from_str("Expected [participants] section"));
                    }
                },
                Section::Participants => {
                    st.stop(idx, String::from_str("Unexpected section"));
                },
            }
        },
    }
}

fn parse_line_exec(st: &mut ParseState, idx: usize, line: &[char])
    ensures
        final(st).model() == parse_line(old(st).model(), idx as int, line@),
{
    let t = trim_chars(line);
    if t.len() == 0 || t[0] == '%' || t[0] == '#' {
        return;
    }
    if t[0] == '[' {
        header_line_exec(st, idx, t.as_slice());
        return;
    }
    if st.section == Section::Before {
        st.warning(idx, String::from_str("Line ignored: not in a section. [slots] missing?"));
        return;
    }
    if t[0] != '"' {
        st.error(idx, String::from_str("Expected a quoted string"));
        return;
    }
    match quoted_chars(t.as_slice()) {
        None => {
            st.error(idx, String::from_str("Invalid quoted string"));
        },
        Some((name, rest)) => {
            let cut = strip_comment_chars(rest.as_slice());
            let tokens = words_of(cut.as_slice());
            if st.section == Section::Slots {
                slot_line_exec(st, idx, name.as_slice(), &tokens);
            } else {
                participant_line_exec(st, idx, name.as_slice(), &tokens);
            }
        },
    }
}

/// Parses the administrator's text into slots and participants, with the errors and
/// warnings of each line.
pub fn parse(text: &str) -> (r: ParseResult)
    ensures
        r.matches(parse_spec(text@)),
{
    let chars = chars_of(text);
    let ls = lines_of(chars.as_slice());
    let ghost lv = ls@.map_values(|l: Vec<char>| l@);
    let mut st = ParseState {
        result: ParseResult { slots: Vec::new(), participants: Vec::new(), errors: Vec::new(), warnings: Vec::new() },
        section: Section::Before,
        sum_vmin: 0,
        sum_vmax: 0,
        stopped: false,
    };
    assert(st.model() =~= initial_model());
    assert(lv.take(0) =~= Seq::<Seq<char>>::empty());
    let mut i: usize = 0;
    while i < ls.len()
        invariant
            i <= ls.len(),
            lv == ls@.map_values(|l: Vec<char>| l@),
            lv == lines(text@),
            st.model() == parse_lines(lv.take(i as int)),
            !st.stopped,
        decreases ls.len() - i,
    {
        assert(lv.take(i + 1).drop_last() =~= lv.take(i as int));
        assert(lv.take(i + 1).last() == ls[i as int]@);
        parse_line_exec(&mut st, i, ls[i].as_slice());
        if st.stopped {
            proof {
                lemma_parse_lines_stopped(lv, i + 1, lv.len() as int);
                assert(lv.take(lv.len() as int) =~= lv);
            }
            return st.result;
        }
        i = i + 1;
    }
    assert(lv.take(ls.len() as int) =~= lv);
    if st.result.errors.len() == 0 && st.result.participants.len() < st.sum_vmin as usize {
        st.error(ls.len(), String::from_str("Not enough participants for the minimal bounds"));
    }
    st.result
}

/// The quoted string at the start of `s` and the trimmed rest of the line.
pub fn parse_quoted_string(s: &str) -> (r: Option<(&str, &str)>)
    ensures
        match r {
            Some((a, b)) => quoted(s@) == Some((a@, b@)),
            None => quoted(s@) is None,
        },
{
    let t = chars_of(s);
    if t.len() == 0 || t[0] != '"' {
        return None;
    }
    let rest = slice_chars(t.as_slice(), 1, t.len());
    assert(rest@ =~= s@.drop_first());
    match find_in(rest.as_slice(), '"') {
        None => None,
        Some(end) => {
            let after = slice_chars(rest.as_slice(), end + 1, rest.len());
            let (a, b) = trim_bounds(after.as_slice());
            let name = s.substring_char(1, end + 1);
            let tail = s.substring_char(end + 2 + a, end + 2 + b);
            assert(name@ =~= rest@.take(end as int));
            assert(after@ =~= rest@.skip(end + 1));
            assert(tail@ =~= after@.subrange(a as int, b as int));
            Some((name, tail))
        },
    }
}

} // verus!
