use vstd::prelude::*;

use vstd::std_specs::iter::IteratorSpec;
use crate::digits::{dec_digits, digit_char, push_char};
use crate::message::{SimpleMessage, SimpleMessageView, Message};
use crate::schedule::{
    Todo, ScheduleType, ExceptionEntry, Schedule, TodoView, TriggerView, ExceptionView,
    ScheduleView, HOUR_MAX, exception_views, schedule_views,
};
use crate::clock::INSTANT_MAX;

verus! {

/// Whether two string slices hold the same characters.
pub fn str_eq(a: &str, b: &str) -> (r: bool)
    ensures
        r == (a@ == b@),
{
    let av = chars_of(a);
    let bv = chars_of(b);
    if av.len() != bv.len() {
        return false;
    }
    let mut i: usize = 0;
    while i < av.len()
        invariant
            av@ == a@,
            bv@ == b@,
            av.len() == bv.len(),
            i <= av.len(),
            forall|j: int| 0 <= j < i ==> a@[j] == b@[j],
        decreases av.len() - i,
    {
        if av[i] != bv[i] {
            return false;
        }
        i += 1;
    }
    proof {
        assert(a@ =~= b@);
    }
    true
}

/// The characters of a string slice, in order.
pub fn chars_of(s: &str) -> (r: Vec<char>)
    ensures
        r@ == s@,
{
    let mut it = s.chars();
    let mut out: Vec<char> = Vec::new();
    proof {
        assert(Seq::<char>::empty() + it.remaining() =~= s@);
    }
    loop
        invariant
            out@ + it.remaining() == s@,
            out@.len() <= s@.len(),
        decreases s@.len() - out@.len(),
    {
        let ghost prev = it.remaining();
        match it.next() {
            Some(c) => {
                out.push(c);
                proof {
                    assert(out@ + it.remaining() =~= s@);
                }
            }
            None => {
                proof {
                    assert(out@ =~= s@);
                }
                return out;
            }
        }
    }
}

/// Whether a character is a decimal digit.
pub open spec fn is_digit(c: char) -> bool {
    48 <= c as u32 <= 57
}

/// The value of a decimal digit character.
pub open spec fn digit_val(c: char) -> nat {
    (c as u32 - 48) as nat
}

/// Reads leading decimal digits, folding them onto `acc`; stops at the
/// first non-digit and returns the value with the rest of the input.
pub open spec fn parse_digits(s: Seq<char>, acc: nat) -> (nat, Seq<char>)
    decreases s.len(),
{
    if s.len() == 0 || !is_digit(s[0]) {
        (acc, s)
    } else {
        parse_digits(s.drop_first(), acc * 10 + digit_val(s[0]))
    }
}

/// Every character of a decimal rendering is a digit.
pub proof fn lemma_dec_digits_are_digits(n: nat)
    ensures
        forall|i: int| 0 <= i < dec_digits(n).len() ==> is_digit(#[trigger] dec_digits(n)[i]),
    decreases n,
{
    if n < 10 {
    } else {
        lemma_dec_digits_are_digits(n / 10);
        assert forall|i: int| 0 <= i < dec_digits(n).len() implies is_digit(
            #[trigger] dec_digits(n)[i],
        ) by {
            if i < dec_digits(n / 10).len() {
                assert(dec_digits(n)[i] == dec_digits(n / 10)[i]);
            } else {
                assert(dec_digits(n)[i] == digit_char((n % 10) as int));
            }
        }
    }
}

/// Reading the decimal rendering of `n` after any prefix value continues
/// the fold into the rest: digits weigh in from the most significant end.
pub proof fn lemma_parse_digits_render(n: nat, acc: nat, rest: Seq<char>)
    ensures
        parse_digits(dec_digits(n) + rest, acc) == parse_digits(
            rest,
            acc * pow10(dec_digits(n).len() as nat) + n,
        ),
    decreases n,
{
    let ds = dec_digits(n);
    assert(pow10(0) == 1);
    assert(pow10(1) == 10);
    if n < 10 {
        assert(ds == seq![digit_char(n as int)]);
        assert((ds + rest)[0] == digit_char(n as int));
        assert(is_digit(digit_char(n as int)));
        assert(digit_val(digit_char(n as int)) == n);
        assert((ds + rest).drop_first() =~= rest);
        assert(parse_digits(ds + rest, acc) == parse_digits(rest, acc * 10 + n));
    } else {
        let hi = dec_digits(n / 10);
        let lo = seq![digit_char((n % 10) as int)];
        assert(ds == hi + lo);
        lemma_parse_digits_render(n / 10, acc, lo + rest);
        assert(ds + rest =~= hi + (lo + rest));
        let mid = acc * pow10(hi.len() as nat) + n / 10;
        assert(parse_digits(hi + (lo + rest), acc) == parse_digits(lo + rest, mid));
        assert((lo + rest)[0] == digit_char((n % 10) as int));
        assert(is_digit((lo + rest)[0]));
        assert(digit_val(digit_char((n % 10) as int)) == n % 10);
        assert((lo + rest).drop_first() =~= rest);
        assert(parse_digits(lo + rest, mid) == parse_digits(rest, mid * 10 + n % 10));
        assert(pow10(ds.len() as nat) == pow10(hi.len() as nat) * 10) by {
            assert(ds.len() == hi.len() + 1);
            assert(pow10((hi.len() + 1) as nat) == 10 * pow10(hi.len() as nat));
        }
        assert(mid * 10 + n % 10 == acc * (pow10(hi.len() as nat) * 10) + n) by (nonlinear_arith)
            requires
                mid == acc * pow10(hi.len() as nat) + n / 10,
                n == (n / 10) * 10 + n % 10,
        ;
    }
}

/// Ten to the given power.
pub open spec fn pow10(k: nat) -> nat
    decreases k,
{
    if k == 0 {
        1nat
    } else {
        10 * pow10((k - 1) as nat)
    }
}

/// A decimal rendering has no leading zero: only zero itself starts with
/// the zero digit, as its whole single-digit rendering.
pub proof fn lemma_dec_digits_leading(n: nat)
    ensures
        dec_digits(n).len() >= 1,
        n > 0 ==> dec_digits(n)[0] != '0',
        n == 0 ==> dec_digits(n) == seq!['0'],
    decreases n,
{
    if n >= 10 {
        lemma_dec_digits_leading(n / 10);
        assert(dec_digits(n)[0] == dec_digits(n / 10)[0]);
    }
}

/// Reading back a decimal rendering yields the value itself.
pub proof fn lemma_parse_digits_round_trip(n: nat, rest: Seq<char>)
    requires
        rest.len() == 0 || !is_digit(rest[0]),
    ensures
        parse_digits(dec_digits(n) + rest, 0) == ((n, rest)),
{
    lemma_parse_digits_render(n, 0, rest);
    assert(parse_digits(rest, n) == ((n, rest)));
}

/// Escapes one character for a quoted document string: quotes and
/// backslashes gain a backslash, everything else stands as itself.
pub open spec fn esc_char(c: char) -> Seq<char> {
    if c == '"' || c == '\\' {
        seq!['\\', c]
    } else {
        seq![c]
    }
}

/// The escaped body of a quoted string.
pub open spec fn esc(s: Seq<char>) -> Seq<char>
    decreases s.len(),
{
    if s.len() == 0 {
        Seq::empty()
    } else {
        esc_char(s[0]) + esc(s.drop_first())
    }
}

/// A quoted document string: the escaped body between double quotes.
pub open spec fn render_string(s: Seq<char>) -> Seq<char> {
    seq!['"'] + esc(s) + seq!['"']
}

/// Reads a quoted-string body up to the closing quote, unescaping as it
/// goes; `acc` holds the characters read so far.
pub open spec fn parse_str_body(s: Seq<char>, acc: Seq<char>) -> Option<(Seq<char>, Seq<char>)>
    decreases s.len(),
{
    if s.len() == 0 {
        None
    } else if s[0] == '"' {
        Some((acc, s.drop_first()))
    } else if s[0] == '\\' {
        if s.len() < 2 || !(s[1] == '"' || s[1] == '\\') {
            None
        } else {
            parse_str_body(s.skip(2), acc.push(s[1]))
        }
    } else {
        parse_str_body(s.drop_first(), acc.push(s[0]))
    }
}

/// Reads a quoted document string: an opening quote, the body, the
/// closing quote.
pub open spec fn parse_string(s: Seq<char>) -> Option<(Seq<char>, Seq<char>)> {
    if s.len() == 0 || s[0] != '"' {
        None
    } else {
        parse_str_body(s.drop_first(), Seq::empty())
    }
}

/// Reading an escaped body recovers exactly the characters it encodes.
pub proof fn lemma_parse_str_body_render(v: Seq<char>, acc: Seq<char>, rest: Seq<char>)
    ensures
        parse_str_body(esc(v) + seq!['"'] + rest, acc) == Some((acc + v, rest)),
    decreases v.len(),
{
    if v.len() == 0 {
        assert(esc(v) + seq!['"'] + rest =~= seq!['"'] + rest);
        assert((seq!['"'] + rest)[0] == '"');
        assert((seq!['"'] + rest).drop_first() =~= rest);
        assert(acc + v =~= acc);
    } else {
        let c = v[0];
        let t = v.drop_first();
        assert(esc(v) =~= esc_char(c) + esc(t));
        if c == '"' || c == '\\' {
            let s = esc(v) + seq!['"'] + rest;
            assert(s[0] == '\\' && s[1] == c);
            assert(s.skip(2) =~= esc(t) + seq!['"'] + rest);
            lemma_parse_str_body_render(t, acc.push(c), rest);
            assert(acc.push(c) + t =~= acc + v);
        } else {
            let s = esc(v) + seq!['"'] + rest;
            assert(s[0] == c);
            assert(c != '"' && c != '\\');
            assert(s.drop_first() =~= esc(t) + seq!['"'] + rest);
            lemma_parse_str_body_render(t, acc.push(c), rest);
            assert(acc.push(c) + t =~= acc + v);
        }
    }
}

/// Reading back a rendered string yields the string itself.
pub proof fn lemma_parse_string_round_trip(v: Seq<char>, rest: Seq<char>)
    ensures
        parse_string(render_string(v) + rest) == Some((v, rest)),
{
    let s = render_string(v) + rest;
    assert(s[0] == '"');
    assert(s.drop_first() =~= esc(v) + seq!['"'] + rest);
    lemma_parse_str_body_render(v, Seq::empty(), rest);
    assert(Seq::<char>::empty() + v =~= v);
}

/// Consumes an exact literal prefix.
pub open spec fn parse_lit(s: Seq<char>, lit: Seq<char>) -> Option<Seq<char>> {
    if s.len() >= lit.len() && s.take(lit.len() as int) == lit {
        Some(s.skip(lit.len() as int))
    } else {
        None
    }
}

/// A literal parses off the front of itself.
pub proof fn lemma_parse_lit_self(lit: Seq<char>, rest: Seq<char>)
    ensures
        parse_lit(lit + rest, lit) == Some(rest),
{
    assert((lit + rest).take(lit.len() as int) =~= lit);
    assert((lit + rest).skip(lit.len() as int) =~= rest);
}

/// A single differing position refutes a literal prefix.
pub proof fn lemma_parse_lit_mismatch(s: Seq<char>, lit: Seq<char>, i: int)
    requires
        0 <= i < lit.len(),
        i < s.len(),
        s[i] != lit[i],
    ensures
        parse_lit(s, lit) is None,
{
    if s.len() >= lit.len() && s.take(lit.len() as int) == lit {
        assert(s.take(lit.len() as int)[i] == s[i]);
    }
}

/// Reads a decimal number of at most `cap`; at least one digit must be
/// present, a leading zero is accepted only as the whole number zero, and
/// larger values are rejected.
pub open spec fn parse_nat_upto(s: Seq<char>, cap: nat) -> Option<(nat, Seq<char>)> {
    if s.len() == 0 || !is_digit(s[0]) {
        None
    } else if s[0] == '0' && s.len() >= 2 && is_digit(s[1]) {
        None
    } else {
        let r = parse_digits(s, 0);
        if r.0 > cap {
            None
        } else {
            Some(r)
        }
    }
}

/// The rendering of a text message payload.
pub open spec fn render_simple(m: SimpleMessageView) -> Seq<char> {
    "{\"type\":"@ + render_string(m.type_) + ",\"text\":"@ + render_string(m.text) + "}"@
}

/// Reads a text message payload.
pub open spec fn parse_simple(s: Seq<char>) -> Option<(SimpleMessageView, Seq<char>)> {
    match parse_lit(s, "{\"type\":"@) {
        None => None,
        Some(s1) => match parse_string(s1) {
            None => None,
            Some((ty, s2)) => match parse_lit(s2, ",\"text\":"@) {
                None => None,
                Some(s3) => match parse_string(s3) {
                    None => None,
                    Some((tx, s4)) => match parse_lit(s4, "}"@) {
                        None => None,
                        Some(s5) => Some((SimpleMessageView { type_: ty, text: tx }, s5)),
                    },
                },
            },
        },
    }
}

/// The rendering of an action, tagged by its variant.
pub open spec fn render_todo(t: TodoView) -> Seq<char> {
    match t {
        TodoView::CreateAttendanceCheck { hour } => "{\"CreateAttendanceCheck\":{\"hour\":"@
            + dec_digits(hour as nat) + "}}"@,
        TodoView::SendAttendanceInfo { attendance_id } => "{\"SendAttendanceInfo\":{\"attendance_id\":"@
            + render_string(attendance_id) + "}}"@,
        TodoView::Test => "\"Test\""@,
        TodoView::SendMessage { contents } => "{\"SendMessage\":{\"contents\":"@ + render_simple(
            contents,
        ) + "}}"@,
        TodoView::Nothing => "\"Nothing\""@,
    }
}

/// Reads an action.
pub open spec fn parse_todo(s: Seq<char>) -> Option<(TodoView, Seq<char>)> {
    if parse_lit(s, "\"Test\""@) is Some {
        Some((TodoView::Test, parse_lit(s, "\"Test\""@).unwrap()))
    } else if parse_lit(s, "\"Nothing\""@) is Some {
        Some((TodoView::Nothing, parse_lit(s, "\"Nothing\""@).unwrap()))
    } else if parse_lit(s, "{\"CreateAttendanceCheck\":{\"hour\":"@) is Some {
        let s1 = parse_lit(s, "{\"CreateAttendanceCheck\":{\"hour\":"@).unwrap();
        match parse_nat_upto(s1, HOUR_MAX as nat) {
            None => None,
            Some((hour, s2)) => match parse_lit(s2, "}}"@) {
                None => None,
                Some(s3) => Some((TodoView::CreateAttendanceCheck { hour: hour as int }, s3)),
            },
        }
    } else if parse_lit(s, "{\"SendAttendanceInfo\":{\"attendance_id\":"@) is Some {
        let s1 = parse_lit(s, "{\"SendAttendanceInfo\":{\"attendance_id\":"@).unwrap();
        match parse_string(s1) {
            None => None,
            Some((aid, s2)) => match parse_lit(s2, "}}"@) {
                None => None,
                Some(s3) => Some((TodoView::SendAttendanceInfo { attendance_id: aid }, s3)),
            },
        }
    } else if parse_lit(s, "{\"SendMessage\":{\"contents\":"@) is Some {
        let s1 = parse_lit(s, "{\"SendMessage\":{\"contents\":"@).unwrap();
        match parse_simple(s1) {
            None => None,
            Some((m, s2)) => match parse_lit(s2, "}}"@) {
                None => None,
                Some(s3) => Some((TodoView::SendMessage { contents: m }, s3)),
            },
        }
    } else {
        None
    }
}

/// The rendering of one exception entry.
pub open spec fn render_exception(e: ExceptionView) -> Seq<char> {
    "{\"id\":"@ + render_string(e.id) + ",\"todo\":"@ + render_todo(e.todo) + ",\"datetime\":"@
        + dec_digits(e.datetime as nat) + "}"@
}

/// Reads one exception entry.
pub open spec fn parse_exception(s: Seq<char>) -> Option<(ExceptionView, Seq<char>)> {
    match parse_lit(s, "{\"id\":"@) {
        None => None,
        Some(s1) => match parse_string(s1) {
            None => None,
            Some((id, s2)) => match parse_lit(s2, ",\"todo\":"@) {
                None => None,
                Some(s3) => match parse_todo(s3) {
                    None => None,
                    Some((todo, s4)) => match parse_lit(s4, ",\"datetime\":"@) {
                        None => None,
                        Some(s5) => match parse_nat_upto(s5, INSTANT_MAX as nat) {
                            None => None,
                            Some((dt, s6)) => match parse_lit(s6, "}"@) {
                                None => None,
                                Some(s7) => Some(
                                    (ExceptionView { id, todo, datetime: dt as int }, s7),
                                ),
                            },
                        },
                    },
                },
            },
        },
    }
}

/// A successful string read consumes at least the quotes.
pub proof fn lemma_parse_str_body_consumes(s: Seq<char>, acc: Seq<char>)
    ensures
        parse_str_body(s, acc) matches Some(r) ==> r.1.len() < s.len(),
    decreases s.len(),
{
    if s.len() == 0 {
    } else if s[0] == '"' {
    } else if s[0] == '\\' {
        if s.len() >= 2 && (s[1] == '"' || s[1] == '\\') {
            lemma_parse_str_body_consumes(s.skip(2), acc.push(s[1]));
        }
    } else {
        lemma_parse_str_body_consumes(s.drop_first(), acc.push(s[0]));
    }
}

/// A successful number read consumes nothing past the input.
pub proof fn lemma_parse_digits_consumes(s: Seq<char>, acc: nat)
    ensures
        parse_digits(s, acc).1.len() <= s.len(),
    decreases s.len(),
{
    if s.len() > 0 && is_digit(s[0]) {
        lemma_parse_digits_consumes(s.drop_first(), acc * 10 + digit_val(s[0]));
    }
}

/// A successful exception read consumes at least one character.
pub proof fn lemma_parse_exception_consumes(s: Seq<char>)
    ensures
        parse_exception(s) matches Some(r) ==> r.1.len() < s.len(),
{
    if parse_exception(s) is Some {
        reveal_strlit("{\"id\":");
        let s1 = parse_lit(s, "{\"id\":"@).unwrap();
        assert(s1.len() < s.len());
        lemma_parse_str_body_consumes(s1.drop_first(), Seq::empty());
        let s2 = parse_string(s1).unwrap().1;
        assert(s2.len() < s1.len());
        let s3 = parse_lit(s2, ",\"todo\":"@).unwrap();
        assert(s3.len() <= s2.len());
        let s4 = parse_todo(s3).unwrap().1;
        lemma_parse_todo_consumes(s3);
        assert(s4.len() <= s3.len());
        let s5 = parse_lit(s4, ",\"datetime\":"@).unwrap();
        assert(s5.len() <= s4.len());
        let s6 = parse_nat_upto(s5, INSTANT_MAX as nat).unwrap().1;
        lemma_parse_digits_consumes(s5, 0);
        assert(s6.len() <= s5.len());
        let s7 = parse_lit(s6, "}"@).unwrap();
        assert(s7.len() <= s6.len());
    }
}

/// A successful action read consumes nothing past the input.
pub proof fn lemma_parse_todo_consumes(s: Seq<char>)
    ensures
        parse_todo(s) matches Some(r) ==> r.1.len() <= s.len(),
{
    if parse_todo(s) is Some {
        if parse_lit(s, "\"Test\""@) is Some {
        } else if parse_lit(s, "\"Nothing\""@) is Some {
        } else if parse_lit(s, "{\"CreateAttendanceCheck\":{\"hour\":"@) is Some {
            let s1 = parse_lit(s, "{\"CreateAttendanceCheck\":{\"hour\":"@).unwrap();
            lemma_parse_digits_consumes(s1, 0);
        } else if parse_lit(s, "{\"SendAttendanceInfo\":{\"attendance_id\":"@) is Some {
            let s1 = parse_lit(s, "{\"SendAttendanceInfo\":{\"attendance_id\":"@).unwrap();
            if parse_string(s1) is Some {
                lemma_parse_str_body_consumes(s1.drop_first(), Seq::empty());
            }
        } else {
            let s1 = parse_lit(s, "{\"SendMessage\":{\"contents\":"@).unwrap();
            if parse_simple(s1) is Some {
                lemma_parse_simple_consumes(s1);
            }
        }
    }
}

/// A successful message read consumes nothing past the input.
pub proof fn lemma_parse_simple_consumes(s: Seq<char>)
    ensures
        parse_simple(s) matches Some(r) ==> r.1.len() <= s.len(),
{
    if parse_simple(s) is Some {
        let s1 = parse_lit(s, "{\"type\":"@).unwrap();
        lemma_parse_str_body_consumes(s1.drop_first(), Seq::empty());
        let s2 = parse_string(s1).unwrap().1;
        let s3 = parse_lit(s2, ",\"text\":"@).unwrap();
        lemma_parse_str_body_consumes(s3.drop_first(), Seq::empty());
    }
}

/// Reads the remainder of an exception list: comma-led entries up to the
/// closing bracket.
pub open spec fn parse_exc_rest(s: Seq<char>, acc: Seq<ExceptionView>) -> Option<
    (Seq<ExceptionView>, Seq<char>),
>
    decreases s.len(),
{
    if s.len() > 0 && s[0] == ',' {
        match parse_exception(s.drop_first()) {
            None => None,
            Some((e, r)) => {
                proof {
                    lemma_parse_exception_consumes(s.drop_first());
                }
                parse_exc_rest(r, acc.push(e))
            }
        }
    } else {
        Some((acc, s))
    }
}

/// Reads a possibly empty exception list body.
pub open spec fn parse_exc_list(s: Seq<char>) -> Option<(Seq<ExceptionView>, Seq<char>)> {
    if s.len() > 0 && s[0] == ']' {
        Some((Seq::empty(), s))
    } else {
        match parse_exception(s) {
            None => None,
            Some((e, r)) => parse_exc_rest(r, seq![e]),
        }
    }
}

/// The comma-led tail of a rendered exception list.
pub open spec fn render_exc_rest(s: Seq<ExceptionView>) -> Seq<char>
    decreases s.len(),
{
    if s.len() == 0 {
        Seq::empty()
    } else {
        seq![','] + render_exception(s[0]) + render_exc_rest(s.drop_first())
    }
}

/// The body of a rendered exception list.
pub open spec fn render_exc_list(s: Seq<ExceptionView>) -> Seq<char> {
    if s.len() == 0 {
        Seq::empty()
    } else {
        render_exception(s[0]) + render_exc_rest(s.drop_first())
    }
}

/// The rendering of a trigger rule, tagged by its variant.
pub open spec fn render_trigger(t: TriggerView) -> Seq<char> {
    match t {
        TriggerView::OneTime { datetime } => "{\"OneTime\":{\"datetime\":"@ + dec_digits(
            datetime as nat,
        ) + "}}"@,
        TriggerView::Weekly { weekday, time, exception } => "{\"Weekly\":{\"weekday\":"@ + seq![
            digit_char(weekday.index()),
        ] + ",\"time\":"@ + dec_digits(time as nat) + ",\"exception\":["@ + render_exc_list(
            exception,
        ) + "]}}"@,
    }
}

/// Reads a trigger rule.
pub open spec fn parse_trigger(s: Seq<char>) -> Option<(TriggerView, Seq<char>)> {
    if parse_lit(s, "{\"OneTime\":{\"datetime\":"@) is Some {
        let s1 = parse_lit(s, "{\"OneTime\":{\"datetime\":"@).unwrap();
        match parse_nat_upto(s1, INSTANT_MAX as nat) {
            None => None,
            Some((dt, s2)) => match parse_lit(s2, "}}"@) {
                None => None,
                Some(s3) => Some((TriggerView::OneTime { datetime: dt as int }, s3)),
            },
        }
    } else if parse_lit(s, "{\"Weekly\":{\"weekday\":"@) is Some {
        let s1 = parse_lit(s, "{\"Weekly\":{\"weekday\":"@).unwrap();
        if s1.len() == 0 || !is_digit(s1[0]) || digit_val(s1[0]) > 6 {
            None
        } else {
            let wd = crate::clock::weekday_from_index(digit_val(s1[0]) as int);
            match parse_lit(s1.drop_first(), ",\"time\":"@) {
                None => None,
                Some(s2) => match parse_nat_upto(s2, 86399nat) {
                    None => None,
                    Some((time, s3)) => match parse_lit(s3, ",\"exception\":["@) {
                        None => None,
                        Some(s4) => match parse_exc_list(s4) {
                            None => None,
                            Some((exc, s5)) => match parse_lit(s5, "]}}"@) {
                                None => None,
                                Some(s6) => Some(
                                    (
                                        TriggerView::Weekly {
                                            weekday: wd,
                                            time: time as int,
                                            exception: exc,
                                        },
                                        s6,
                                    ),
                                ),
                            },
                        },
                    },
                },
            }
        }
    } else {
        None
    }
}

/// The rendering of one schedule record.
pub open spec fn render_schedule(v: ScheduleView) -> Seq<char> {
    "{\"id\":"@ + render_string(v.id) + ",\"todo\":"@ + render_todo(v.todo)
        + ",\"schedule_type\":"@ + render_trigger(v.schedule_type) + "}"@
}

/// Reads one schedule record.
pub open spec fn parse_schedule(s: Seq<char>) -> Option<(ScheduleView, Seq<char>)> {
    match parse_lit(s, "{\"id\":"@) {
        None => None,
        Some(s1) => match parse_string(s1) {
            None => None,
            Some((id, s2)) => match parse_lit(s2, ",\"todo\":"@) {
                None => None,
                Some(s3) => match parse_todo(s3) {
                    None => None,
                    Some((todo, s4)) => match parse_lit(s4, ",\"schedule_type\":"@) {
                        None => None,
                        Some(s5) => match parse_trigger(s5) {
                            None => None,
                            Some((st, s6)) => match parse_lit(s6, "}"@) {
                                None => None,
                                Some(s7) => Some(
                                    (ScheduleView { id, todo, schedule_type: st }, s7),
                                ),
                            },
                        },
                    },
                },
            },
        },
    }
}

/// A successful schedule read consumes at least one character.
pub proof fn lemma_parse_schedule_consumes(s: Seq<char>)
    ensures
        parse_schedule(s) matches Some(r) ==> r.1.len() < s.len(),
{
    if parse_schedule(s) is Some {
        reveal_strlit("{\"id\":");
        let s1 = parse_lit(s, "{\"id\":"@).unwrap();
        assert(s1.len() < s.len());
        lemma_parse_str_body_consumes(s1.drop_first(), Seq::empty());
        let s2 = parse_string(s1).unwrap().1;
        let s3 = parse_lit(s2, ",\"todo\":"@).unwrap();
        lemma_parse_todo_consumes(s3);
        let s4 = parse_todo(s3).unwrap().1;
        let s5 = parse_lit(s4, ",\"schedule_type\":"@).unwrap();
        lemma_parse_trigger_consumes(s5);
    }
}

/// A successful trigger read consumes nothing past the input.
pub proof fn lemma_parse_trigger_consumes(s: Seq<char>)
    ensures
        parse_trigger(s) matches Some(r) ==> r.1.len() <= s.len(),
{
    if parse_trigger(s) is Some {
        if parse_lit(s, "{\"OneTime\":{\"datetime\":"@) is Some {
            let s1 = parse_lit(s, "{\"OneTime\":{\"datetime\":"@).unwrap();
            lemma_parse_digits_consumes(s1, 0);
        } else {
            let s1 = parse_lit(s, "{\"Weekly\":{\"weekday\":"@).unwrap();
            if !(s1.len() == 0 || !is_digit(s1[0]) || digit_val(s1[0]) > 6) {
                if parse_lit(s1.drop_first(), ",\"time\":"@) is Some {
                    let s2 = parse_lit(s1.drop_first(), ",\"time\":"@).unwrap();
                    lemma_parse_digits_consumes(s2, 0);
                    if parse_nat_upto(s2, 86399nat) is Some {
                        let s3 = parse_nat_upto(s2, 86399nat).unwrap().1;
                        if parse_lit(s3, ",\"exception\":["@) is Some {
                            let s4 = parse_lit(s3, ",\"exception\":["@).unwrap();
                            lemma_parse_exc_list_consumes(s4);
                        }
                    }
                }
            }
        }
    }
}

/// A successful list-tail read consumes nothing past the input.
pub proof fn lemma_parse_exc_rest_consumes(s: Seq<char>, acc: Seq<ExceptionView>)
    ensures
        parse_exc_rest(s, acc) matches Some(r) ==> r.1.len() <= s.len(),
    decreases s.len(),
{
    if s.len() > 0 && s[0] == ',' {
        lemma_parse_exception_consumes(s.drop_first());
        match parse_exception(s.drop_first()) {
            None => {}
            Some((e, r)) => {
                lemma_parse_exc_rest_consumes(r, acc.push(e));
            }
        }
    }
}

/// A successful list read consumes nothing past the input.
pub proof fn lemma_parse_exc_list_consumes(s: Seq<char>)
    ensures
        parse_exc_list(s) matches Some(r) ==> r.1.len() <= s.len(),
{
    if !(s.len() > 0 && s[0] == ']') {
        lemma_parse_exception_consumes(s);
        match parse_exception(s) {
            None => {}
            Some((e, r)) => {
                lemma_parse_exc_rest_consumes(r, seq![e]);
            }
        }
    }
}

/// The comma-led tail of a rendered schedule list.
pub open spec fn render_sched_rest(s: Seq<ScheduleView>) -> Seq<char>
    decreases s.len(),
{
    if s.len() == 0 {
        Seq::empty()
    } else {
        seq![','] + render_schedule(s[0]) + render_sched_rest(s.drop_first())
    }
}

/// The body of a rendered schedule list.
pub open spec fn render_sched_list(s: Seq<ScheduleView>) -> Seq<char> {
    if s.len() == 0 {
        Seq::empty()
    } else {
        render_schedule(s[0]) + render_sched_rest(s.drop_first())
    }
}

/// The whole rendered document: the schedule records between brackets.
pub open spec fn render_document_spec(s: Seq<ScheduleView>) -> Seq<char> {
    seq!['['] + render_sched_list(s) + seq![']']
}

/// Reads the remainder of a schedule list: comma-led records up to the
/// closing bracket.
pub open spec fn parse_sched_rest(s: Seq<char>, acc: Seq<ScheduleView>) -> Option<
    (Seq<ScheduleView>, Seq<char>),
>
    decreases s.len(),
{
    if s.len() > 0 && s[0] == ',' {
        match parse_schedule(s.drop_first()) {
            None => None,
            Some((e, r)) => {
                proof {
                    lemma_parse_schedule_consumes(s.drop_first());
                }
                parse_sched_rest(r, acc.push(e))
            }
        }
    } else {
        Some((acc, s))
    }
}

/// Reads a possibly empty schedule list body.
pub open spec fn parse_sched_list(s: Seq<char>) -> Option<(Seq<ScheduleView>, Seq<char>)> {
    if s.len() > 0 && s[0] == ']' {
        Some((Seq::empty(), s))
    } else {
        match parse_schedule(s) {
            None => None,
            Some((e, r)) => parse_sched_rest(r, seq![e]),
        }
    }
}

/// Reads a whole document; every character must belong to it.
pub open spec fn parse_document_spec(s: Seq<char>) -> Option<Seq<ScheduleView>> {
    if s.len() == 0 || s[0] != '[' {
        None
    } else {
        match parse_sched_list(s.drop_first()) {
            None => None,
            Some((v, r)) => {
                if r.len() == 1 && r[0] == ']' {
                    Some(v)
                } else {
                    None
                }
            }
        }
    }
}

/// Reading back a rendered message payload yields the payload itself.
pub proof fn lemma_rt_simple(m: SimpleMessageView, rest: Seq<char>)
    ensures
        parse_simple(render_simple(m) + rest) == Some((m, rest)),
{
    let a = "{\"type\":"@;
    let b = ",\"text\":"@;
    let c = "}"@;
    let s = render_simple(m) + rest;
    let r1 = render_string(m.type_) + (b + (render_string(m.text) + (c + rest)));
    assert(s =~= a + r1);
    lemma_parse_lit_self(a, r1);
    lemma_parse_string_round_trip(m.type_, b + (render_string(m.text) + (c + rest)));
    lemma_parse_lit_self(b, render_string(m.text) + (c + rest));
    lemma_parse_string_round_trip(m.text, c + rest);
    lemma_parse_lit_self(c, rest);
}

/// Reading back a rendered action yields the action itself.
pub proof fn lemma_rt_todo(t: TodoView, rest: Seq<char>)
    requires
        crate::schedule::wf_todo(t),
    ensures
        parse_todo(render_todo(t) + rest) == Some((t, rest)),
{
    reveal_strlit("\"Test\"");
    reveal_strlit("\"Nothing\"");
    reveal_strlit("{\"CreateAttendanceCheck\":{\"hour\":");
    reveal_strlit("{\"SendAttendanceInfo\":{\"attendance_id\":");
    reveal_strlit("{\"SendMessage\":{\"contents\":");
    reveal_strlit("}}");
    let lit_test = "\"Test\""@;
    let lit_nothing = "\"Nothing\""@;
    let lit_cac = "{\"CreateAttendanceCheck\":{\"hour\":"@;
    let lit_sai = "{\"SendAttendanceInfo\":{\"attendance_id\":"@;
    let lit_sm = "{\"SendMessage\":{\"contents\":"@;
    let lit_close = "}}"@;
    let s = render_todo(t) + rest;
    match t {
        TodoView::Test => {
            assert(s =~= lit_test + rest);
            lemma_parse_lit_self(lit_test, rest);
        }
        TodoView::Nothing => {
            assert(s =~= lit_nothing + rest);
            assert(s[1] == 'N');
            lemma_parse_lit_mismatch(s, lit_test, 1);
            lemma_parse_lit_self(lit_nothing, rest);
        }
        TodoView::CreateAttendanceCheck { hour } => {
            let ds = dec_digits(hour as nat);
            let r1 = ds + (lit_close + rest);
            assert(s =~= lit_cac + r1);
            assert(s[0] == '{');
            lemma_parse_lit_mismatch(s, lit_test, 0);
            lemma_parse_lit_mismatch(s, lit_nothing, 0);
            lemma_parse_lit_self(lit_cac, r1);
            lemma_dec_digits_are_digits(hour as nat);
            lemma_dec_digits_leading(hour as nat);
            assert(r1[0] == ds[0]);
            assert(is_digit(r1[0]));
            assert((lit_close + rest)[0] == '}');
            assert(ds.len() >= 2 ==> r1[0] != '0');
            assert(ds.len() == 1 ==> r1[1] == '}');
            lemma_parse_digits_round_trip(hour as nat, lit_close + rest);
            assert(parse_nat_upto(r1, HOUR_MAX as nat) == Some(
                ((hour as nat, lit_close + rest)),
            ));
            lemma_parse_lit_self(lit_close, rest);
        }
        TodoView::SendAttendanceInfo { attendance_id } => {
            let r1 = render_string(attendance_id) + (lit_close + rest);
            assert(s =~= lit_sai + r1);
            assert(s[0] == '{');
            lemma_parse_lit_mismatch(s, lit_test, 0);
            lemma_parse_lit_mismatch(s, lit_nothing, 0);
            assert(s[2] == 'S');
            lemma_parse_lit_mismatch(s, lit_cac, 2);
            lemma_parse_lit_self(lit_sai, r1);
            lemma_parse_string_round_trip(attendance_id, lit_close + rest);
            lemma_parse_lit_self(lit_close, rest);
        }
        TodoView::SendMessage { contents } => {
            let r1 = render_simple(contents) + (lit_close + rest);
            assert(s =~= lit_sm + r1);
            assert(s[0] == '{');
            lemma_parse_lit_mismatch(s, lit_test, 0);
            lemma_parse_lit_mismatch(s, lit_nothing, 0);
            assert(s[2] == 'S');
            lemma_parse_lit_mismatch(s, lit_cac, 2);
            assert(s[6] == 'M');
            lemma_parse_lit_mismatch(s, lit_sai, 6);
            lemma_parse_lit_self(lit_sm, r1);
            lemma_rt_simple(contents, lit_close + rest);
            lemma_parse_lit_self(lit_close, rest);
        }
    }
}

/// Reading back a rendered exception entry yields the entry itself.
pub proof fn lemma_rt_exception(e: ExceptionView, rest: Seq<char>)
    requires
        crate::schedule::wf_exception(e),
    ensures
        parse_exception(render_exception(e) + rest) == Some((e, rest)),
{
    reveal_strlit("}");
    let a = "{\"id\":"@;
    let b = ",\"todo\":"@;
    let c = ",\"datetime\":"@;
    let d = "}"@;
    let ds = dec_digits(e.datetime as nat);
    let s = render_exception(e) + rest;
    let r1 = render_string(e.id) + (b + (render_todo(e.todo) + (c + (ds + (d + rest)))));
    assert(s =~= a + r1);
    lemma_parse_lit_self(a, r1);
    lemma_parse_string_round_trip(e.id, b + (render_todo(e.todo) + (c + (ds + (d + rest)))));
    lemma_parse_lit_self(b, render_todo(e.todo) + (c + (ds + (d + rest))));
    lemma_rt_todo(e.todo, c + (ds + (d + rest)));
    lemma_parse_lit_self(c, ds + (d + rest));
    lemma_dec_digits_are_digits(e.datetime as nat);
    lemma_dec_digits_leading(e.datetime as nat);
    assert(is_digit((ds + (d + rest))[0]));
    assert((d + rest)[0] == '}');
    assert(ds.len() >= 2 ==> (ds + (d + rest))[0] != '0');
    assert(ds.len() == 1 ==> (ds + (d + rest))[1] == '}');
    lemma_parse_digits_round_trip(e.datetime as nat, d + rest);
    assert(parse_nat_upto(ds + (d + rest), INSTANT_MAX as nat) == Some(
        ((e.datetime as nat, d + rest)),
    ));
    lemma_parse_lit_self(d, rest);
}

/// Reading back a rendered exception-list tail accumulates the entries.
#[verifier::rlimit(50)]
pub proof fn lemma_rt_exc_rest(v: Seq<ExceptionView>, acc: Seq<ExceptionView>, rest: Seq<char>)
    requires
        crate::schedule::wf_exceptions(v),
        rest.len() > 0,
        rest[0] == ']',
    ensures
        parse_exc_rest(render_exc_rest(v) + rest, acc) == Some((acc + v, rest)),
    decreases v.len(),
{
    if v.len() == 0 {
        assert(render_exc_rest(v) + rest =~= rest);
        assert(acc + v =~= acc);
    } else {
        assert(crate::schedule::wf_exception(v[0]));
        let head = v[0];
        let tail = v.drop_first();
        let s = render_exc_rest(v) + rest;
        let r1 = render_exception(head) + (render_exc_rest(tail) + rest);
        assert(s =~= seq![','] + r1);
        assert(s[0] == ',');
        assert(s.drop_first() =~= r1);
        lemma_rt_exception(head, render_exc_rest(tail) + rest);
        assert(forall|i: int| 0 <= i < tail.len() ==> crate::schedule::wf_exception(
            #[trigger] tail[i],
        )) by {
            assert(forall|i: int| 0 <= i < tail.len() ==> tail[i] == v[i + 1]);
        }
        lemma_rt_exc_rest(tail, acc.push(head), rest);
        assert(acc.push(head) + tail =~= acc + v);
    }
}

/// Reading back a rendered exception list yields the list itself.
pub proof fn lemma_rt_exc_list(v: Seq<ExceptionView>, rest: Seq<char>)
    requires
        crate::schedule::wf_exceptions(v),
        rest.len() > 0,
        rest[0] == ']',
    ensures
        parse_exc_list(render_exc_list(v) + rest) == Some((v, rest)),
{
    if v.len() == 0 {
        assert(render_exc_list(v) + rest =~= rest);
    } else {
        reveal_strlit("{\"id\":");
        let head = v[0];
        let tail = v.drop_first();
        let s = render_exc_list(v) + rest;
        assert(s =~= render_exception(head) + (render_exc_rest(tail) + rest));
        assert(s[0] == '{');
        assert(s[0] != ']');
        lemma_rt_exception(head, render_exc_rest(tail) + rest);
        assert(forall|i: int| 0 <= i < tail.len() ==> crate::schedule::wf_exception(
            #[trigger] tail[i],
        )) by {
            assert(forall|i: int| 0 <= i < tail.len() ==> tail[i] == v[i + 1]);
        }
        lemma_rt_exc_rest(tail, seq![head], rest);
        assert(seq![head] + tail =~= v);
    }
}

/// Reading back a rendered trigger rule yields the rule itself.
#[verifier::rlimit(60)]
pub proof fn lemma_rt_trigger(t: TriggerView, rest: Seq<char>)
    requires
        crate::schedule::wf_trigger(t),
    ensures
        parse_trigger(render_trigger(t) + rest) == Some((t, rest)),
{
    reveal_strlit("{\"OneTime\":{\"datetime\":");
    reveal_strlit("{\"Weekly\":{\"weekday\":");
    reveal_strlit(",\"time\":");
    reveal_strlit(",\"exception\":[");
    reveal_strlit("]}}");
    reveal_strlit("}}");
    let lit_one = "{\"OneTime\":{\"datetime\":"@;
    let lit_weekly = "{\"Weekly\":{\"weekday\":"@;
    let lit_time = ",\"time\":"@;
    let lit_exc = ",\"exception\":["@;
    let lit_close3 = "]}}"@;
    let lit_close2 = "}}"@;
    let s = render_trigger(t) + rest;
    match t {
        TriggerView::OneTime { datetime } => {
            let ds = dec_digits(datetime as nat);
            let r1 = ds + (lit_close2 + rest);
            assert(s =~= lit_one + r1);
            lemma_parse_lit_self(lit_one, r1);
            lemma_dec_digits_are_digits(datetime as nat);
            lemma_dec_digits_leading(datetime as nat);
            assert(is_digit(r1[0]));
            assert((lit_close2 + rest)[0] == '}');
            assert(ds.len() >= 2 ==> r1[0] != '0');
            assert(ds.len() == 1 ==> r1[1] == '}');
            lemma_parse_digits_round_trip(datetime as nat, lit_close2 + rest);
            assert(parse_nat_upto(r1, INSTANT_MAX as nat) == Some(
                ((datetime as nat, lit_close2 + rest)),
            ));
            lemma_parse_lit_self(lit_close2, rest);
        }
        TriggerView::Weekly { weekday, time, exception } => {
            let wd = seq![digit_char(weekday.index())];
            let ts = dec_digits(time as nat);
            let r1 = wd + (lit_time + (ts + (lit_exc + (render_exc_list(exception) + (lit_close3
                + rest)))));
            assert(s =~= lit_weekly + r1);
            assert(s[2] == 'W');
            lemma_parse_lit_mismatch(s, lit_one, 2);
            lemma_parse_lit_self(lit_weekly, r1);
            assert(0 <= weekday.index() <= 6);
            assert(r1[0] == digit_char(weekday.index()));
            assert(is_digit(r1[0]) && digit_val(r1[0]) == weekday.index());
            assert(crate::clock::weekday_from_index(weekday.index()) == weekday);
            assert(r1.drop_first() =~= lit_time + (ts + (lit_exc + (render_exc_list(exception)
                + (lit_close3 + rest)))));
            lemma_parse_lit_self(lit_time, ts + (lit_exc + (render_exc_list(exception) + (
            lit_close3 + rest))));
            lemma_dec_digits_are_digits(time as nat);
            lemma_dec_digits_leading(time as nat);
            assert(is_digit(ts[0]));
            let after_time = lit_exc + (render_exc_list(exception) + (lit_close3 + rest));
            assert(after_time[0] == ',');
            assert(ts.len() >= 2 ==> (ts + after_time)[0] != '0');
            assert(ts.len() == 1 ==> (ts + after_time)[1] == ',');
            lemma_parse_digits_round_trip(time as nat, after_time);
            lemma_parse_lit_self(lit_exc, render_exc_list(exception) + (lit_close3 + rest));
            assert((lit_close3 + rest)[0] == ']');
            lemma_rt_exc_list(exception, lit_close3 + rest);
            lemma_parse_lit_self(lit_close3, rest);
        }
    }
}

/// Reading back a rendered schedule record yields the record itself.
pub proof fn lemma_rt_schedule(v: ScheduleView, rest: Seq<char>)
    requires
        crate::schedule::wf_schedule(v),
    ensures
        parse_schedule(render_schedule(v) + rest) == Some((v, rest)),
{
    reveal_strlit("}");
    let a = "{\"id\":"@;
    let b = ",\"todo\":"@;
    let c = ",\"schedule_type\":"@;
    let d = "}"@;
    let s = render_schedule(v) + rest;
    let r1 = render_string(v.id) + (b + (render_todo(v.todo) + (c + (render_trigger(
        v.schedule_type,
    ) + (d + rest)))));
    assert(s =~= a + r1);
    lemma_parse_lit_self(a, r1);
    lemma_parse_string_round_trip(
        v.id,
        b + (render_todo(v.todo) + (c + (render_trigger(v.schedule_type) + (d + rest)))),
    );
    lemma_parse_lit_self(
        b,
        render_todo(v.todo) + (c + (render_trigger(v.schedule_type) + (d + rest))),
    );
    lemma_rt_todo(v.todo, c + (render_trigger(v.schedule_type) + (d + rest)));
    lemma_parse_lit_self(c, render_trigger(v.schedule_type) + (d + rest));
    lemma_rt_trigger(v.schedule_type, d + rest);
    lemma_parse_lit_self(d, rest);
}

/// Reading back a rendered schedule-list tail accumulates the records.
#[verifier::rlimit(50)]
pub proof fn lemma_rt_sched_rest(v: Seq<ScheduleView>, acc: Seq<ScheduleView>, rest: Seq<char>)
    requires
        crate::schedule::wf_schedules(v),
        rest.len() > 0,
        rest[0] == ']',
    ensures
        parse_sched_rest(render_sched_rest(v) + rest, acc) == Some((acc + v, rest)),
    decreases v.len(),
{
    if v.len() == 0 {
        assert(render_sched_rest(v) + rest =~= rest);
        assert(acc + v =~= acc);
    } else {
        assert(crate::schedule::wf_schedule(v[0]));
        let head = v[0];
        let tail = v.drop_first();
        let s = render_sched_rest(v) + rest;
        let r1 = render_schedule(head) + (render_sched_rest(tail) + rest);
        assert(s =~= seq![','] + r1);
        assert(s[0] == ',');
        assert(s.drop_first() =~= r1);
        lemma_rt_schedule(head, render_sched_rest(tail) + rest);
        assert(forall|i: int| 0 <= i < tail.len() ==> crate::schedule::wf_schedule(
            #[trigger] tail[i],
        )) by {
            assert(forall|i: int| 0 <= i < tail.len() ==> tail[i] == v[i + 1]);
        }
        lemma_rt_sched_rest(tail, acc.push(head), rest);
        assert(acc.push(head) + tail =~= acc + v);
    }
}

/// Reading back a rendered schedule list yields the list itself.
#[verifier::rlimit(50)]
pub proof fn lemma_rt_sched_list(v: Seq<ScheduleView>, rest: Seq<char>)
    requires
        crate::schedule::wf_schedules(v),
        rest.len() > 0,
        rest[0] == ']',
    ensures
        parse_sched_list(render_sched_list(v) + rest) == Some((v, rest)),
{
    if v.len() == 0 {
        assert(render_sched_list(v) + rest =~= rest);
    } else {
        reveal_strlit("{\"id\":");
        let head = v[0];
        let tail = v.drop_first();
        let s = render_sched_list(v) + rest;
        assert(s =~= render_schedule(head) + (render_sched_rest(tail) + rest));
        assert(crate::schedule::wf_schedule(v[0]));
        assert(s[0] == '{');
        assert(s[0] != ']');
        lemma_rt_schedule(head, render_sched_rest(tail) + rest);
        assert(forall|i: int| 0 <= i < tail.len() ==> crate::schedule::wf_schedule(
            #[trigger] tail[i],
        )) by {
            assert(forall|i: int| 0 <= i < tail.len() ==> tail[i] == v[i + 1]);
        }
        lemma_rt_sched_rest(tail, seq![head], rest);
        assert(seq![head] + tail =~= v);
    }
}

/// Loading a saved document yields the schedule collection itself: the
/// persistence round trip preserves content and order.
pub proof fn lemma_document_round_trip(v: Seq<ScheduleView>)
    requires
        crate::schedule::wf_schedules(v),
    ensures
        parse_document_spec(render_document_spec(v)) == Some(v),
{
    let s = render_document_spec(v);
    assert(s[0] == '[');
    assert(s.drop_first() =~= render_sched_list(v) + seq![']']);
    lemma_rt_sched_list(v, seq![']']);
}

/// Escaping distributes over concatenation.
pub proof fn lemma_esc_concat(a: Seq<char>, b: Seq<char>)
    ensures
        esc(a + b) == esc(a) + esc(b),
    decreases a.len(),
{
    if a.len() == 0 {
        assert(a + b =~= b);
        assert(esc(a) + esc(b) =~= esc(b));
    } else {
        assert((a + b).drop_first() =~= a.drop_first() + b);
        assert((a + b)[0] == a[0]);
        lemma_esc_concat(a.drop_first(), b);
        assert(esc_char(a[0]) + (esc(a.drop_first()) + esc(b)) =~= esc_char(a[0]) + esc(
            a.drop_first(),
        ) + esc(b));
    }
}

/// Appends a quoted, escaped string to the output.
fn write_string(v: &str, out: &mut String)
    ensures
        final(out)@ == old(out)@ + render_string(v@),
{
    let cs = chars_of(v);
    push_char(out, '"');
    let mut k: usize = 0;
    while k < cs.len()
        invariant
            k <= cs.len(),
            cs@ == v@,
            out@ == old(out)@ + seq!['"'] + esc(v@.take(k as int)),
        decreases cs.len() - k,
    {
        let c = cs[k];
        if c == '"' || c == '\\' {
            push_char(out, '\\');
            push_char(out, c);
        } else {
            push_char(out, c);
        }
        proof {
            assert(v@.take(k as int + 1) =~= v@.take(k as int) + seq![v@[k as int]]);
            lemma_esc_concat(v@.take(k as int), seq![v@[k as int]]);
            assert(seq![v@[k as int]].drop_first() =~= Seq::<char>::empty());
            assert(esc(Seq::<char>::empty()) == Seq::<char>::empty());
            assert(esc(seq![v@[k as int]]) =~= esc_char(v@[k as int]));
            assert(out@ =~= old(out)@ + seq!['"'] + esc(v@.take(k as int + 1)));
        }
        k += 1;
    }
    push_char(out, '"');
    proof {
        assert(v@.take(cs@.len() as int) =~= v@);
        assert(out@ =~= old(out)@ + render_string(v@));
    }
}

/// Appends the decimal rendering of a non-negative instant.
fn write_dec_i64(n: i64, out: &mut String)
    requires
        0 <= n,
    ensures
        final(out)@ == old(out)@ + dec_digits(n as nat),
{
    crate::digits::push_dec_u64(n as u64, out);
}

/// Appends a rendered text message payload.
fn write_simple(m: &SimpleMessage, out: &mut String)
    ensures
        final(out)@ == old(out)@ + render_simple(m@),
{
    vstd::string::StringExecFns::append(out, "{\"type\":");
    write_string(m.type_.as_str(), out);
    vstd::string::StringExecFns::append(out, ",\"text\":");
    write_string(m.text.as_str(), out);
    vstd::string::StringExecFns::append(out, "}");
    proof {
        assert(out@ =~= old(out)@ + render_simple(m@));
    }
}

/// Appends a rendered action.
fn write_todo(t: &Todo, out: &mut String)
    requires
        crate::schedule::wf_todo(t@),
    ensures
        final(out)@ == old(out)@ + render_todo(t@),
{
    match t {
        Todo::CreateAttendanceCheck { hour } => {
            vstd::string::StringExecFns::append(out, "{\"CreateAttendanceCheck\":{\"hour\":");
            write_dec_i64(*hour, out);
            vstd::string::StringExecFns::append(out, "}}");
        }
        Todo::SendAttendanceInfo { attendance_id } => {
            vstd::string::StringExecFns::append(
                out,
                "{\"SendAttendanceInfo\":{\"attendance_id\":",
            );
            write_string(attendance_id.as_str(), out);
            vstd::string::StringExecFns::append(out, "}}");
        }
        Todo::Test => {
            vstd::string::StringExecFns::append(out, "\"Test\"");
        }
        Todo::SendMessage { contents } => {
            vstd::string::StringExecFns::append(out, "{\"SendMessage\":{\"contents\":");
            write_simple(contents, out);
            vstd::string::StringExecFns::append(out, "}}");
        }
        Todo::Nothing => {
            vstd::string::StringExecFns::append(out, "\"Nothing\"");
        }
    }
    proof {
        assert(out@ =~= old(out)@ + render_todo(t@));
    }
}

/// Appends one rendered exception entry.
fn write_exception(e: &ExceptionEntry, out: &mut String)
    requires
        crate::schedule::wf_exception(e@),
    ensures
        final(out)@ == old(out)@ + render_exception(e@),
{
    vstd::string::StringExecFns::append(out, "{\"id\":");
    write_string(e.id.as_str(), out);
    vstd::string::StringExecFns::append(out, ",\"todo\":");
    write_todo(&e.todo, out);
    vstd::string::StringExecFns::append(out, ",\"datetime\":");
    write_dec_i64(e.datetime, out);
    vstd::string::StringExecFns::append(out, "}");
    proof {
        assert(out@ =~= old(out)@ + render_exception(e@));
    }
}

/// Appends the comma-led tail of an exception list, from `index`.
fn write_exc_rest(v: &Vec<ExceptionEntry>, index: usize, out: &mut String)
    requires
        index <= v.len(),
        crate::schedule::wf_exceptions(exception_views(v@).skip(index as int)),
    ensures
        final(out)@ == old(out)@ + render_exc_rest(exception_views(v@).skip(index as int)),
    decreases v.len() - index,
{
    let ghost pre = exception_views(v@).skip(index as int);
    if index >= v.len() {
        proof {
            assert(pre =~= Seq::<ExceptionView>::empty());
            assert(out@ =~= old(out)@ + render_exc_rest(pre));
        }
        return ;
    }
    proof {
        assert(pre[0] == exception_views(v@)[index as int]);
        assert(crate::schedule::wf_exception(pre[0]));
    }
    push_char(out, ',');
    write_exception(&v[index], out);
    proof {
        assert(exception_views(v@).skip(index as int + 1) =~= pre.drop_first());
        assert forall|i: int| 0 <= i < pre.drop_first().len() implies crate::schedule::wf_exception(
            #[trigger] pre.drop_first()[i],
        ) by {
            assert(pre.drop_first()[i] == pre[i + 1]);
        }
    }
    write_exc_rest(v, index + 1, out);
    proof {
        assert(out@ =~= old(out)@ + render_exc_rest(pre));
    }
}

/// Appends a rendered exception list body.
fn write_exc_list(v: &Vec<ExceptionEntry>, out: &mut String)
    requires
        crate::schedule::wf_exceptions(exception_views(v@)),
    ensures
        final(out)@ == old(out)@ + render_exc_list(exception_views(v@)),
{
    let ghost pre = exception_views(v@);
    if v.len() == 0 {
        proof {
            assert(out@ =~= old(out)@ + render_exc_list(pre));
        }
        return ;
    }
    proof {
        assert(pre[0] == exception_views(v@)[0]);
        assert(crate::schedule::wf_exception(pre[0]));
    }
    write_exception(&v[0], out);
    proof {
        assert(exception_views(v@).skip(1) =~= pre.drop_first());
        assert forall|i: int| 0 <= i < pre.drop_first().len() implies crate::schedule::wf_exception(
            #[trigger] pre.drop_first()[i],
        ) by {
            assert(pre.drop_first()[i] == pre[i + 1]);
        }
    }
    write_exc_rest(v, 1, out);
    proof {
        assert(out@ =~= old(out)@ + render_exc_list(pre));
    }
}

/// Appends a rendered trigger rule.
fn write_trigger(t: &ScheduleType, out: &mut String)
    requires
        crate::schedule::wf_trigger(t@),
    ensures
        final(out)@ == old(out)@ + render_trigger(t@),
{
    match t {
        ScheduleType::OneTime { datetime } => {
            vstd::string::StringExecFns::append(out, "{\"OneTime\":{\"datetime\":");
            write_dec_i64(*datetime, out);
            vstd::string::StringExecFns::append(out, "}}");
        }
        ScheduleType::Weekly { weekday, time, exception } => {
            vstd::string::StringExecFns::append(out, "{\"Weekly\":{\"weekday\":");
            let d = weekday.num_days_from_monday();
            push_char(out, (48 + d) as char);
            vstd::string::StringExecFns::append(out, ",\"time\":");
            crate::digits::push_dec_u64(*time as u64, out);
            vstd::string::StringExecFns::append(out, ",\"exception\":[");
            write_exc_list(exception, out);
            vstd::string::StringExecFns::append(out, "]}}");
        }
    }
    proof {
        assert(out@ =~= old(out)@ + render_trigger(t@));
    }
}

/// Appends one rendered schedule record.
fn write_schedule(v: &Schedule, out: &mut String)
    requires
        crate::schedule::wf_schedule(v@),
    ensures
        final(out)@ == old(out)@ + render_schedule(v@),
{
    vstd::string::StringExecFns::append(out, "{\"id\":");
    write_string(v.id.as_str(), out);
    vstd::string::StringExecFns::append(out, ",\"todo\":");
    write_todo(&v.todo, out);
    vstd::string::StringExecFns::append(out, ",\"schedule_type\":");
    write_trigger(&v.schedule_type, out);
    vstd::string::StringExecFns::append(out, "}");
    proof {
        assert(out@ =~= old(out)@ + render_schedule(v@));
    }
}

/// Appends the comma-led tail of a schedule list, from `index`.
fn write_sched_rest(v: &Vec<Schedule>, index: usize, out: &mut String)
    requires
        index <= v.len(),
        crate::schedule::wf_schedules(schedule_views(v@).skip(index as int)),
    ensures
        final(out)@ == old(out)@ + render_sched_rest(schedule_views(v@).skip(index as int)),
    decreases v.len() - index,
{
    let ghost pre = schedule_views(v@).skip(index as int);
    if index >= v.len() {
        proof {
            assert(pre =~= Seq::<ScheduleView>::empty());
            assert(out@ =~= old(out)@ + render_sched_rest(pre));
        }
        return ;
    }
    proof {
        assert(pre[0] == schedule_views(v@)[index as int]);
        assert(crate::schedule::wf_schedule(pre[0]));
    }
    push_char(out, ',');
    write_schedule(&v[index], out);
    proof {
        assert(schedule_views(v@).skip(index as int + 1) =~= pre.drop_first());
        assert forall|i: int| 0 <= i < pre.drop_first().len() implies crate::schedule::wf_schedule(
            #[trigger] pre.drop_first()[i],
        ) by {
            assert(pre.drop_first()[i] == pre[i + 1]);
        }
    }
    write_sched_rest(v, index + 1, out);
    proof {
        assert(out@ =~= old(out)@ + render_sched_rest(pre));
    }
}

/// The canonical document text of a schedule collection.
pub fn render_document(schedules: &Vec<Schedule>) -> (r: String)
    requires
        crate::schedule::wf_schedules(schedule_views(schedules@)),
    ensures
        r@ == render_document_spec(schedule_views(schedules@)),
{
    let ghost pre = schedule_views(schedules@);
    let mut out = String::new();
    push_char(&mut out, '[');
    if schedules.len() > 0 {
        proof {
            assert(pre[0] == schedule_views(schedules@)[0]);
            assert(crate::schedule::wf_schedule(pre[0]));
        }
        write_schedule(&schedules[0], &mut out);
        proof {
            assert(schedule_views(schedules@).skip(1) =~= pre.drop_first());
            assert forall|i: int| 0 <= i < pre.drop_first().len() implies
                crate::schedule::wf_schedule(#[trigger] pre.drop_first()[i]) by {
                assert(pre.drop_first()[i] == pre[i + 1]);
            }
        }
        write_sched_rest(schedules, 1, &mut out);
    }
    push_char(&mut out, ']');
    proof {
        assert(out@ =~= render_document_spec(pre));
    }
    out
}

impl Message for SimpleMessage {
    /// A text payload describes itself as its rendered record.
    open spec fn json_spec(&self) -> Seq<char> {
        render_simple(self@)
    }

    /// The canonical document text of this payload.
    fn json(&self) -> (r: String)
        ensures
            r@ == render_simple(self@),
    {
        let mut out = String::new();
        write_simple(self, &mut out);
        out
    }
}

/// Consumes an exact literal at `i`, executably.
fn expect_lit(s: &Vec<char>, i: usize, lit: &str) -> (r: Option<usize>)
    requires
        i <= s.len(),
    ensures
        match r {
            Some(j) => i <= j <= s.len() && parse_lit(s@.skip(i as int), lit@) == Some(
                s@.skip(j as int),
            ),
            None => parse_lit(s@.skip(i as int), lit@) is None,
        },
{
    let lv = chars_of(lit);
    if s.len() - i < lv.len() {
        return None;
    }
    let mut k: usize = 0;
    while k < lv.len()
        invariant
            k <= lv.len(),
            lv@ == lit@,
            i <= s.len(),
            s.len() - i >= lv.len(),
            forall|m: int| 0 <= m < k ==> s@[i + m] == lit@[m],
        decreases lv.len() - k,
    {
        if s[i + k] != lv[k] {
            proof {
                assert(s@.skip(i as int)[k as int] == s@[i + k as int]);
                lemma_parse_lit_mismatch(s@.skip(i as int), lit@, k as int);
            }
            return None;
        }
        k += 1;
    }
    proof {
        assert(s@.skip(i as int).take(lit@.len() as int) =~= lit@);
        assert(s@.skip(i as int).skip(lit@.len() as int) =~= s@.skip(
            i as int + lit@.len() as int,
        ));
    }
    Some(i + lv.len())
}

/// Reads a quoted string at `i`, executably.
fn parse_string_exec(s: &Vec<char>, i: usize) -> (r: Option<(String, usize)>)
    requires
        i <= s.len(),
    ensures
        match r {
            Some((v, j)) => i <= j <= s.len() && parse_string(s@.skip(i as int)) == Some(
                (v@, s@.skip(j as int)),
            ),
            None => parse_string(s@.skip(i as int)) is None,
        },
{
    if i >= s.len() || s[i] != '"' {
        proof {
            if i < s.len() {
                assert(s@.skip(i as int)[0] == s@[i as int]);
            }
        }
        return None;
    }
    proof {
        assert(s@.skip(i as int)[0] == '"');
        assert(s@.skip(i as int).drop_first() =~= s@.skip(i as int + 1));
    }
    let mut out = String::new();
    let mut j = i + 1;
    loop
        invariant
            i + 1 <= j <= s.len(),
            parse_string(s@.skip(i as int)) == parse_str_body(
                s@.skip(i as int + 1),
                Seq::empty(),
            ),
            parse_str_body(s@.skip(i as int + 1), Seq::empty()) == parse_str_body(
                s@.skip(j as int),
                out@,
            ),
        decreases s.len() - j,
    {
        if j >= s.len() {
            proof {
                assert(s@.skip(j as int).len() == 0);
            }
            return None;
        }
        let c = s[j];
        proof {
            assert(s@.skip(j as int)[0] == s@[j as int]);
        }
        if c == '"' {
            proof {
                assert(s@.skip(j as int).drop_first() =~= s@.skip(j as int + 1));
            }
            return Some((out, j + 1));
        } else if c == '\\' {
            if j + 1 >= s.len() {
                proof {
                    assert(s@.skip(j as int).len() < 2);
                }
                return None;
            }
            let c2 = s[j + 1];
            proof {
                assert(s@.skip(j as int)[1] == s@[j as int + 1]);
            }
            if c2 == '"' || c2 == '\\' {
                push_char(&mut out, c2);
                proof {
                    assert(s@.skip(j as int).skip(2) =~= s@.skip(j as int + 2));
                }
                j += 2;
            } else {
                return None;
            }
        } else {
            push_char(&mut out, c);
            proof {
                assert(s@.skip(j as int).drop_first() =~= s@.skip(j as int + 1));
            }
            j += 1;
        }
    }
}

/// Reads a decimal number of at most `cap` at `i`, executably.
fn parse_u64_upto(s: &Vec<char>, i: usize, cap: u64) -> (r: Option<(u64, usize)>)
    requires
        i <= s.len(),
        cap as int <= INSTANT_MAX,
    ensures
        match r {
            Some((v, j)) => i <= j <= s.len() && v <= cap && parse_nat_upto(
                s@.skip(i as int),
                cap as nat,
            ) == Some((v as nat, s@.skip(j as int))),
            None => parse_nat_upto(s@.skip(i as int), cap as nat) is None,
        },
{
    if i >= s.len() || !(48 <= s[i] as u32 && s[i] as u32 <= 57) {
        proof {
            if i < s.len() {
                assert(s@.skip(i as int)[0] == s@[i as int]);
            }
        }
        return None;
    }
    if s[i] == '0' && i + 1 < s.len() && 48 <= s[i + 1] as u32 && s[i + 1] as u32 <= 57 {
        proof {
            assert(s@.skip(i as int)[0] == s@[i as int]);
            assert(s@.skip(i as int)[1] == s@[i as int + 1]);
        }
        return None;
    }
    proof {
        assert(s@.skip(i as int)[0] == s@[i as int]);
        assert(is_digit(s@.skip(i as int)[0]));
        if s@.skip(i as int).len() >= 2 {
            assert(s@.skip(i as int)[1] == s@[i as int + 1]);
        }
    }
    let mut acc: u64 = 0;
    let ghost mut acc_g: nat = 0nat;
    let mut over = false;
    let mut j = i;
    while j < s.len() && 48 <= s[j] as u32 && s[j] as u32 <= 57
        invariant
            i <= j <= s.len(),
            cap as int <= INSTANT_MAX,
            parse_digits(s@.skip(i as int), 0) == parse_digits(s@.skip(j as int), acc_g),
            !over ==> acc as nat == acc_g && acc <= cap,
            over ==> acc_g > cap as nat,
        decreases s.len() - j,
    {
        let c = s[j];
        let d = (c as u32 - 48) as u64;
        proof {
            assert(s@.skip(j as int)[0] == s@[j as int]);
            assert(is_digit(s@[j as int]));
            assert(digit_val(s@[j as int]) == d as nat);
            assert(s@.skip(j as int).drop_first() =~= s@.skip(j as int + 1));
        }
        if !over {
            let cand = acc * 10 + d;
            if cand > cap {
                over = true;
            } else {
                acc = cand;
            }
        }
        proof {
            acc_g = acc_g * 10 + digit_val(s@[j as int]);
        }
        j += 1;
    }
    proof {
        if j < s.len() {
            assert(s@.skip(j as int)[0] == s@[j as int]);
        }
        assert(parse_digits(s@.skip(j as int), acc_g) == ((acc_g, s@.skip(j as int))));
    }
    if over {
        return None;
    }
    Some((acc, j))
}

/// Reads an action at `i`, executably.
fn parse_todo_exec(s: &Vec<char>, i: usize) -> (r: Option<(Todo, usize)>)
    requires
        i <= s.len(),
    ensures
        match r {
            Some((v, j)) => i <= j <= s.len() && parse_todo(s@.skip(i as int)) == Some(
                (v@, s@.skip(j as int)),
            ),
            None => parse_todo(s@.skip(i as int)) is None,
        },
{
    if let Some(j) = expect_lit(s, i, "\"Test\"") {
        return Some((Todo::Test, j));
    }
    if let Some(j) = expect_lit(s, i, "\"Nothing\"") {
        return Some((Todo::Nothing, j));
    }
    if let Some(j1) = expect_lit(s, i, "{\"CreateAttendanceCheck\":{\"hour\":") {
        let hj = parse_u64_upto(s, j1, HOUR_MAX as u64);
        match hj {
            None => {
                return None;
            }
            Some((hour, j2)) => {
                match expect_lit(s, j2, "}}") {
                    None => {
                        return None;
                    }
                    Some(j3) => {
                        return Some((Todo::CreateAttendanceCheck { hour: hour as i64 }, j3));
                    }
                }
            }
        }
    }
    if let Some(j1) = expect_lit(s, i, "{\"SendAttendanceInfo\":{\"attendance_id\":") {
        match parse_string_exec(s, j1) {
            None => {
                return None;
            }
            Some((aid, j2)) => {
                match expect_lit(s, j2, "}}") {
                    None => {
                        return None;
                    }
                    Some(j3) => {
                        return Some((Todo::SendAttendanceInfo { attendance_id: aid }, j3));
                    }
                }
            }
        }
    }
    if let Some(j1) = expect_lit(s, i, "{\"SendMessage\":{\"contents\":") {
        match parse_simple_exec(s, j1) {
            None => {
                return None;
            }
            Some((m, j2)) => {
                match expect_lit(s, j2, "}}") {
                    None => {
                        return None;
                    }
                    Some(j3) => {
                        return Some((Todo::SendMessage { contents: m }, j3));
                    }
                }
            }
        }
    }
    None
}

/// Reads a text message payload at `i`, executably.
fn parse_simple_exec(s: &Vec<char>, i: usize) -> (r: Option<(SimpleMessage, usize)>)
    requires
        i <= s.len(),
    ensures
        match r {
            Some((v, j)) => i <= j <= s.len() && parse_simple(s@.skip(i as int)) == Some(
                (v@, s@.skip(j as int)),
            ),
            None => parse_simple(s@.skip(i as int)) is None,
        },
{
    match expect_lit(s, i, "{\"type\":") {
        None => None,
        Some(j1) => match parse_string_exec(s, j1) {
            None => None,
            Some((ty, j2)) => match expect_lit(s, j2, ",\"text\":") {
                None => None,
                Some(j3) => match parse_string_exec(s, j3) {
                    None => None,
                    Some((tx, j4)) => match expect_lit(s, j4, "}") {
                        None => None,
                        Some(j5) => Some((SimpleMessage { type_: ty, text: tx }, j5)),
                    },
                },
            },
        },
    }
}

/// Reads one exception entry at `i`, executably.
fn parse_exception_exec(s: &Vec<char>, i: usize) -> (r: Option<(ExceptionEntry, usize)>)
    requires
        i <= s.len(),
    ensures
        match r {
            Some((v, j)) => i <= j <= s.len() && parse_exception(s@.skip(i as int)) == Some(
                (v@, s@.skip(j as int)),
            ),
            None => parse_exception(s@.skip(i as int)) is None,
        },
{
    match expect_lit(s, i, "{\"id\":") {
        None => None,
        Some(j1) => match parse_string_exec(s, j1) {
            None => None,
            Some((id, j2)) => match expect_lit(s, j2, ",\"todo\":") {
                None => None,
                Some(j3) => match parse_todo_exec(s, j3) {
                    None => None,
                    Some((todo, j4)) => match expect_lit(s, j4, ",\"datetime\":") {
                        None => None,
                        Some(j5) => match parse_u64_upto(s, j5, 999_999_999_999u64) {
                            None => None,
                            Some((dt, j6)) => match expect_lit(s, j6, "}") {
                                None => None,
                                Some(j7) => Some(
                                    (ExceptionEntry { id, todo, datetime: dt as i64 }, j7),
                                ),
                            },
                        },
                    },
                },
            },
        },
    }
}

/// Reads an exception list body at `i`, executably.
#[verifier::rlimit(60)]
fn parse_exc_list_exec(s: &Vec<char>, i: usize) -> (r: Option<(Vec<ExceptionEntry>, usize)>)
    requires
        i <= s.len(),
    ensures
        match r {
            Some((v, j)) => i <= j <= s.len() && parse_exc_list(s@.skip(i as int)) == Some(
                (exception_views(v@), s@.skip(j as int)),
            ),
            None => parse_exc_list(s@.skip(i as int)) is None,
        },
{
    if i < s.len() && s[i] == ']' {
        proof {
            assert(s@.skip(i as int)[0] == ']');
            assert(exception_views(Seq::<ExceptionEntry>::empty()) =~= Seq::<
                ExceptionView,
            >::empty());
        }
        let out: Vec<ExceptionEntry> = Vec::new();
        return Some((out, i));
    }
    proof {
        if i < s.len() {
            assert(s@.skip(i as int)[0] == s@[i as int]);
        }
    }
    match parse_exception_exec(s, i) {
        None => None,
        Some((e, j0)) => {
            let ghost e0v = e@;
            let mut out: Vec<ExceptionEntry> = Vec::new();
            out.push(e);
            let mut j = j0;
            proof {
                assert(exception_views(out@) =~= seq![e0v]);
            }
            loop
                invariant
                    i <= j <= s.len(),
                    parse_exc_list(s@.skip(i as int)) == parse_exc_rest(
                        s@.skip(j0 as int),
                        seq![e0v],
                    ),
                    parse_exc_rest(s@.skip(j0 as int), seq![e0v]) == parse_exc_rest(
                        s@.skip(j as int),
                        exception_views(out@),
                    ),
                decreases s.len() - j,
            {
                if j < s.len() && s[j] == ',' {
                    proof {
                        assert(s@.skip(j as int)[0] == ',');
                        assert(s@.skip(j as int).drop_first() =~= s@.skip(j as int + 1));
                    }
                    match parse_exception_exec(s, j + 1) {
                        None => {
                            return None;
                        }
                        Some((e2, j2)) => {
                            proof {
                                lemma_parse_exception_consumes(s@.skip(j as int + 1));
                                assert(exception_views(out@.push(e2)) =~= exception_views(
                                    out@,
                                ).push(e2@));
                            }
                            out.push(e2);
                            j = j2;
                        }
                    }
                } else {
                    proof {
                        if j < s.len() {
                            assert(s@.skip(j as int)[0] == s@[j as int]);
                        }
                        assert(parse_exc_rest(s@.skip(j as int), exception_views(out@)) == Some(
                            ((exception_views(out@), s@.skip(j as int))),
                        ));
                    }
                    return Some((out, j));
                }
            }
        }
    }
}

/// Reads a trigger rule at `i`, executably.
fn parse_trigger_exec(s: &Vec<char>, i: usize) -> (r: Option<(ScheduleType, usize)>)
    requires
        i <= s.len(),
    ensures
        match r {
            Some((v, j)) => i <= j <= s.len() && parse_trigger(s@.skip(i as int)) == Some(
                (v@, s@.skip(j as int)),
            ),
            None => parse_trigger(s@.skip(i as int)) is None,
        },
{
    if let Some(j1) = expect_lit(s, i, "{\"OneTime\":{\"datetime\":") {
        match parse_u64_upto(s, j1, 999_999_999_999u64) {
            None => {
                return None;
            }
            Some((dt, j2)) => {
                match expect_lit(s, j2, "}}") {
                    None => {
                        return None;
                    }
                    Some(j3) => {
                        return Some((ScheduleType::OneTime { datetime: dt as i64 }, j3));
                    }
                }
            }
        }
    }
    if let Some(j1) = expect_lit(s, i, "{\"Weekly\":{\"weekday\":") {
        if j1 >= s.len() {
            return None;
        }
        let c = s[j1];
        proof {
            assert(s@.skip(j1 as int)[0] == s@[j1 as int]);
        }
        if !(48 <= c as u32 && c as u32 <= 54) {
            return None;
        }
        let wd = match crate::clock::Weekday::from_index((c as u32 - 48) as u8) {
            Some(w) => w,
            None => {
                proof {
                    assert(false);
                }
                crate::clock::Weekday::Mon
            }
        };
        proof {
            assert(digit_val(s@[j1 as int]) == c as u32 - 48);
            assert(crate::clock::weekday_from_index(digit_val(s@[j1 as int]) as int) == wd);
            assert(s@.skip(j1 as int).drop_first() =~= s@.skip(j1 as int + 1));
        }
        match expect_lit(s, j1 + 1, ",\"time\":") {
            None => {
                return None;
            }
            Some(j2) => {
                match parse_u64_upto(s, j2, 86399u64) {
                    None => {
                        return None;
                    }
                    Some((time, j3)) => {
                        match expect_lit(s, j3, ",\"exception\":[") {
                            None => {
                                return None;
                            }
                            Some(j4) => {
                                match parse_exc_list_exec(s, j4) {
                                    None => {
                                        return None;
                                    }
                                    Some((exc, j5)) => {
                                        match expect_lit(s, j5, "]}}") {
                                            None => {
                                                return None;
                                            }
                                            Some(j6) => {
                                                return Some(
                                                    (
                                                        ScheduleType::Weekly {
                                                            weekday: wd,
                                                            time: time as u32,
                                                            exception: exc,
                                                        },
                                                        j6,
                                                    ),
                                                );
                                            }
                                        }
                                    }
                                }
                            }
                        }
                    }
                }
            }
        }
    }
    None
}

/// Reads one schedule record at `i`, executably.
fn parse_schedule_exec(s: &Vec<char>, i: usize) -> (r: Option<(Schedule, usize)>)
    requires
        i <= s.len(),
    ensures
        match r {
            Some((v, j)) => i <= j <= s.len() && parse_schedule(s@.skip(i as int)) == Some(
                (v@, s@.skip(j as int)),
            ),
            None => parse_schedule(s@.skip(i as int)) is None,
        },
{
    match expect_lit(s, i, "{\"id\":") {
        None => None,
        Some(j1) => match parse_string_exec(s, j1) {
            None => None,
            Some((id, j2)) => match expect_lit(s, j2, ",\"todo\":") {
                None => None,
                Some(j3) => match parse_todo_exec(s, j3) {
                    None => None,
                    Some((todo, j4)) => match expect_lit(s, j4, ",\"schedule_type\":") {
                        None => None,
                        Some(j5) => match parse_trigger_exec(s, j5) {
                            None => None,
                            Some((st, j6)) => match expect_lit(s, j6, "}") {
                                None => None,
                                Some(j7) => Some(
                                    (Schedule { id, todo, schedule_type: st }, j7),
                                ),
                            },
                        },
                    },
                },
            },
        },
    }
}

/// Reads a schedule list body at `i`, executably.
fn parse_sched_list_exec(s: &Vec<char>, i: usize) -> (r: Option<(Vec<Schedule>, usize)>)
    requires
        i <= s.len(),
    ensures
        match r {
            Some((v, j)) => i <= j <= s.len() && parse_sched_list(s@.skip(i as int)) == Some(
                (schedule_views(v@), s@.skip(j as int)),
            ),
            None => parse_sched_list(s@.skip(i as int)) is None,
        },
{
    if i < s.len() && s[i] == ']' {
        proof {
            assert(s@.skip(i as int)[0] == ']');
            assert(schedule_views(Seq::<Schedule>::empty()) =~= Seq::<ScheduleView>::empty());
        }
        let out: Vec<Schedule> = Vec::new();
        return Some((out, i));
    }
    proof {
        if i < s.len() {
            assert(s@.skip(i as int)[0] == s@[i as int]);
        }
    }
    match parse_schedule_exec(s, i) {
        None => None,
        Some((e, j0)) => {
            let ghost e0v = e@;
            let mut out: Vec<Schedule> = Vec::new();
            out.push(e);
            let mut j = j0;
            proof {
                assert(schedule_views(out@) =~= seq![e0v]);
            }
            loop
                invariant
                    i <= j <= s.len(),
                    parse_sched_list(s@.skip(i as int)) == parse_sched_rest(
                        s@.skip(j0 as int),
                        seq![e0v],
                    ),
                    parse_sched_rest(s@.skip(j0 as int), seq![e0v]) == parse_sched_rest(
                        s@.skip(j as int),
                        schedule_views(out@),
                    ),
                decreases s.len() - j,
            {
                if j < s.len() && s[j] == ',' {
                    proof {
                        assert(s@.skip(j as int)[0] == ',');
                        assert(s@.skip(j as int).drop_first() =~= s@.skip(j as int + 1));
                    }
                    match parse_schedule_exec(s, j + 1) {
                        None => {
                            return None;
                        }
                        Some((e2, j2)) => {
                            proof {
                                lemma_parse_schedule_consumes(s@.skip(j as int + 1));
                                assert(schedule_views(out@.push(e2)) =~= schedule_views(
                                    out@,
                                ).push(e2@));
                            }
                            out.push(e2);
                            j = j2;
                        }
                    }
                } else {
                    proof {
                        if j < s.len() {
                            assert(s@.skip(j as int)[0] == s@[j as int]);
                        }
                        assert(parse_sched_rest(s@.skip(j as int), schedule_views(out@)) == Some(
                            ((schedule_views(out@), s@.skip(j as int))),
                        ));
                    }
                    return Some((out, j));
                }
            }
        }
    }
}

/// Every action a read yields is valid.
pub proof fn lemma_parse_todo_wf(s: Seq<char>)
    ensures
        parse_todo(s) matches Some(r) ==> crate::schedule::wf_todo(r.0),
{
}

/// Every exception entry a read yields is valid.
pub proof fn lemma_parse_exception_wf(s: Seq<char>)
    ensures
        parse_exception(s) matches Some(r) ==> crate::schedule::wf_exception(r.0),
{
    if parse_exception(s) is Some {
        let s1 = parse_lit(s, "{\"id\":"@).unwrap();
        let s2 = parse_string(s1).unwrap().1;
        let s3 = parse_lit(s2, ",\"todo\":"@).unwrap();
        lemma_parse_todo_wf(s3);
    }
}

/// Every exception-list tail a read yields extends a valid accumulator
/// with valid entries.
pub proof fn lemma_parse_exc_rest_wf(s: Seq<char>, acc: Seq<ExceptionView>)
    requires
        crate::schedule::wf_exceptions(acc),
    ensures
        parse_exc_rest(s, acc) matches Some(r) ==> crate::schedule::wf_exceptions(r.0),
    decreases s.len(),
{
    if s.len() > 0 && s[0] == ',' {
        match parse_exception(s.drop_first()) {
            None => {}
            Some((e, rem)) => {
                lemma_parse_exception_consumes(s.drop_first());
                lemma_parse_exception_wf(s.drop_first());
                assert forall|k: int| 0 <= k < acc.push(e).len() implies
                    crate::schedule::wf_exception(#[trigger] acc.push(e)[k]) by {
                    if k < acc.len() {
                        assert(acc.push(e)[k] == acc[k]);
                    }
                }
                lemma_parse_exc_rest_wf(rem, acc.push(e));
            }
        }
    }
}

/// Every exception list a read yields is valid.
pub proof fn lemma_parse_exc_list_wf(s: Seq<char>)
    ensures
        parse_exc_list(s) matches Some(r) ==> crate::schedule::wf_exceptions(r.0),
{
    if !(s.len() > 0 && s[0] == ']') {
        match parse_exception(s) {
            None => {}
            Some((e, rem)) => {
                lemma_parse_exception_wf(s);
                assert(crate::schedule::wf_exceptions(seq![e])) by {
                    assert(seq![e][0] == e);
                }
                lemma_parse_exc_rest_wf(rem, seq![e]);
            }
        }
    }
}

/// Every trigger rule a read yields is valid.
pub proof fn lemma_parse_trigger_wf(s: Seq<char>)
    ensures
        parse_trigger(s) matches Some(r) ==> crate::schedule::wf_trigger(r.0),
{
    if parse_trigger(s) is Some {
        if parse_lit(s, "{\"OneTime\":{\"datetime\":"@) is Some {
        } else {
            let s1 = parse_lit(s, "{\"Weekly\":{\"weekday\":"@).unwrap();
            if !(s1.len() == 0 || !is_digit(s1[0]) || digit_val(s1[0]) > 6) {
                match parse_lit(s1.drop_first(), ",\"time\":"@) {
                    None => {}
                    Some(s2) => {
                        match parse_nat_upto(s2, 86399nat) {
                            None => {}
                            Some((time, s3)) => {
                                match parse_lit(s3, ",\"exception\":["@) {
                                    None => {}
                                    Some(s4) => {
                                        lemma_parse_exc_list_wf(s4);
                                    }
                                }
                            }
                        }
                    }
                }
            }
        }
    }
}

/// Every schedule record a read yields is valid.
pub proof fn lemma_parse_schedule_wf(s: Seq<char>)
    ensures
        parse_schedule(s) matches Some(r) ==> crate::schedule::wf_schedule(r.0),
{
    if parse_schedule(s) is Some {
        let s1 = parse_lit(s, "{\"id\":"@).unwrap();
        let s2 = parse_string(s1).unwrap().1;
        let s3 = parse_lit(s2, ",\"todo\":"@).unwrap();
        lemma_parse_todo_wf(s3);
        let s4 = parse_todo(s3).unwrap().1;
        let s5 = parse_lit(s4, ",\"schedule_type\":"@).unwrap();
        lemma_parse_trigger_wf(s5);
    }
}

/// Every schedule-list tail a read yields extends a valid accumulator with
/// valid records.
pub proof fn lemma_parse_sched_rest_wf(s: Seq<char>, acc: Seq<ScheduleView>)
    requires
        crate::schedule::wf_schedules(acc),
    ensures
        parse_sched_rest(s, acc) matches Some(r) ==> crate::schedule::wf_schedules(r.0),
    decreases s.len(),
{
    if s.len() > 0 && s[0] == ',' {
        match parse_schedule(s.drop_first()) {
            None => {}
            Some((e, rem)) => {
                lemma_parse_schedule_consumes(s.drop_first());
                lemma_parse_schedule_wf(s.drop_first());
                assert forall|k: int| 0 <= k < acc.push(e).len() implies
                    crate::schedule::wf_schedule(#[trigger] acc.push(e)[k]) by {
                    if k < acc.len() {
                        assert(acc.push(e)[k] == acc[k]);
                    }
                }
                lemma_parse_sched_rest_wf(rem, acc.push(e));
            }
        }
    }
}

/// Every schedule list a read yields is valid.
pub proof fn lemma_parse_sched_list_wf(s: Seq<char>)
    ensures
        parse_sched_list(s) matches Some(r) ==> crate::schedule::wf_schedules(r.0),
{
    if !(s.len() > 0 && s[0] == ']') {
        match parse_schedule(s) {
            None => {}
            Some((e, rem)) => {
                lemma_parse_schedule_wf(s);
                assert(crate::schedule::wf_schedules(seq![e])) by {
                    assert(seq![e][0] == e);
                }
                lemma_parse_sched_rest_wf(rem, seq![e]);
            }
        }
    }
}

/// Reads a whole document: every record of the collection, in order, and
/// nothing else. A malformed document yields nothing.
pub fn parse_document(text: &str) -> (r: Option<Vec<Schedule>>)
    ensures
        match r {
            Some(v) => parse_document_spec(text@) == Some(schedule_views(v@))
                && crate::schedule::wf_schedules(schedule_views(v@)),
            None => parse_document_spec(text@) is None,
        },
{
    let cs = chars_of(text);
    if cs.len() == 0 {
        return None;
    }
    if cs[0] != '[' {
        proof {
            assert(text@[0] != '[');
        }
        return None;
    }
    proof {
        assert(cs@.skip(1) =~= text@.drop_first());
    }
    match parse_sched_list_exec(&cs, 1) {
        None => None,
        Some((v, j)) => {
            proof {
                lemma_parse_sched_list_wf(text@.drop_first());
            }
            if j == cs.len() - 1 && cs[j] == ']' {
                proof {
                    assert(cs@.skip(j as int).len() == 1);
                    assert(cs@.skip(j as int)[0] == ']');
                }
                Some(v)
            } else {
                proof {
                    let rem = cs@.skip(j as int);
                    if rem.len() == 1 && rem[0] == ']' {
                        assert(cs@[j as int] == rem[0]);
                        assert(j == cs.len() - 1);
                    }
                }
                None
            }
        }
    }
}


/// A digit character is recovered from its value.
pub proof fn lemma_digit_char_inverse(c: char)
    requires
        is_digit(c),
    ensures
        digit_char(digit_val(c) as int) == c,
{
}

/// The value of a digit string read from the front onto an accumulator.
pub open spec fn digits_value(d: Seq<char>, acc: nat) -> nat
    decreases d.len(),
{
    if d.len() == 0 {
        acc
    } else {
        digits_value(d.drop_first(), acc * 10 + digit_val(d[0]))
    }
}

/// Folding never shrinks the accumulator.
pub proof fn lemma_digits_value_ge(d: Seq<char>, acc: nat)
    ensures
        digits_value(d, acc) >= acc,
    decreases d.len(),
{
    if d.len() > 0 {
        lemma_digits_value_ge(d.drop_first(), acc * 10 + digit_val(d[0]));
    }
}

/// Folding one more digit on the right multiplies by ten and adds it.
pub proof fn lemma_digits_value_append(d: Seq<char>, c: char, acc: nat)
    ensures
        digits_value(d.push(c), acc) == digits_value(d, acc) * 10 + digit_val(c),
    decreases d.len(),
{
    if d.len() == 0 {
        assert(d.push(c).drop_first() =~= Seq::<char>::empty());
        assert(d.push(c)[0] == c);
        assert(digits_value(Seq::<char>::empty(), acc * 10 + digit_val(c)) == acc * 10
            + digit_val(c));
        assert(digits_value(d, acc) == acc);
    } else {
        assert(d.push(c)[0] == d[0]);
        assert(d.push(c).drop_first() =~= d.drop_first().push(c));
        lemma_digits_value_append(d.drop_first(), c, acc * 10 + digit_val(d[0]));
        assert(digits_value(d.push(c), acc) == digits_value(
            d.drop_first().push(c),
            acc * 10 + digit_val(d[0]),
        ));
        assert(digits_value(d, acc) == digits_value(d.drop_first(), acc * 10 + digit_val(d[0])));
    }
}

/// What a digit read consumes: a maximal all-digit prefix whose fold is
/// the value, with the rest following unchanged.
pub proof fn lemma_parse_digits_split(s: Seq<char>, acc: nat)
    ensures
        ({
            let (n, r) = parse_digits(s, acc);
            let k = s.len() - r.len();
            &&& 0 <= k <= s.len()
            &&& r == s.skip(k as int)
            &&& forall|i: int| 0 <= i < k ==> is_digit(#[trigger] s[i])
            &&& (r.len() == 0 || !is_digit(r[0]))
            &&& n == digits_value(s.take(k as int), acc)
        }),
    decreases s.len(),
{
    if s.len() == 0 || !is_digit(s[0]) {
        assert(s.skip(0) =~= s);
        assert(s.take(0) =~= Seq::<char>::empty());
    } else {
        let s1 = s.drop_first();
        let acc1 = acc * 10 + digit_val(s[0]);
        lemma_parse_digits_split(s1, acc1);
        let (n, r) = parse_digits(s1, acc1);
        let k1 = s1.len() - r.len();
        let k = s.len() - r.len();
        assert(k == k1 + 1);
        assert(s.skip(k as int) =~= s1.skip(k1 as int));
        assert forall|i: int| 0 <= i < k implies is_digit(#[trigger] s[i]) by {
            if i > 0 {
                assert(s[i] == s1[i - 1]);
            }
        }
        assert(s.take(k as int)[0] == s[0]);
        assert(s.take(k as int).drop_first() =~= s1.take(k1 as int));
    }
}

/// A non-empty digit string with no leading zero is the decimal rendering
/// of its own value.
pub proof fn lemma_digits_render(d: Seq<char>)
    requires
        d.len() >= 1,
        forall|i: int| 0 <= i < d.len() ==> is_digit(#[trigger] d[i]),
        d.len() >= 2 ==> d[0] != '0',
    ensures
        dec_digits(digits_value(d, 0)) == d,
    decreases d.len(),
{
    if d.len() == 1 {
        assert(d.drop_first() =~= Seq::<char>::empty());
        assert(digits_value(Seq::<char>::empty(), digit_val(d[0])) == digit_val(d[0]));
        assert(digits_value(d, 0) == digit_val(d[0]));
        lemma_digit_char_inverse(d[0]);
        assert(dec_digits(digit_val(d[0])) =~= d);
    } else {
        let d0 = d.take(d.len() - 1);
        let dl = d[d.len() - 1];
        assert(d =~= d0.push(dl));
        lemma_digits_value_append(d0, dl, 0);
        let hi = digits_value(d0, 0);
        let n = digits_value(d, 0);
        assert(n == hi * 10 + digit_val(dl));
        assert(d0[0] == d[0]);
        assert(digit_val(d0[0]) >= 1) by {
            lemma_digit_char_inverse(d0[0]);
        }
        assert(hi >= 1) by {
            assert(digits_value(d0, 0) == digits_value(
                d0.drop_first(),
                digit_val(d0[0]),
            ));
            lemma_digits_value_ge(d0.drop_first(), digit_val(d0[0]));
        }
        assert(n >= 10);
        assert(n / 10 == hi && n % 10 == digit_val(dl)) by {
            vstd::arithmetic::div_mod::lemma_fundamental_div_mod_converse(
                n as int,
                10,
                hi as int,
                digit_val(dl) as int,
            );
        }
        assert forall|i: int| 0 <= i < d0.len() implies is_digit(#[trigger] d0[i]) by {
            assert(d0[i] == d[i]);
        }
        lemma_digits_render(d0);
        lemma_digit_char_inverse(dl);
        assert(dec_digits(n) == dec_digits(hi) + seq![digit_char((n % 10) as int)]);
        assert(dec_digits(n) =~= d);
    }
}

/// What a bounded number read consumes is exactly the decimal rendering of
/// the value it returns.
pub proof fn lemma_canon_nat(s: Seq<char>, cap: nat)
    ensures
        parse_nat_upto(s, cap) matches Some((n, r)) ==> s == dec_digits(n) + r,
{
    if parse_nat_upto(s, cap) is Some {
        lemma_parse_digits_split(s, 0);
        let (n, r) = parse_digits(s, 0);
        let k = s.len() - r.len();
        assert(k >= 1);
        assert(s.take(k as int)[0] == s[0]);
        if k >= 2 {
            assert(s[1] == s.take(k as int)[1]);
            assert(is_digit(s[1]));
            assert(s[0] != '0');
        }
        lemma_digits_render(s.take(k as int));
        assert(s =~= s.take(k as int) + s.skip(k as int));
    }
}

/// What a string-body read consumes is exactly the escaped rendering of
/// the characters it adds, up to the closing quote.
pub proof fn lemma_canon_str_body(s: Seq<char>, acc: Seq<char>)
    ensures
        parse_str_body(s, acc) matches Some((v, r)) ==> {
            &&& acc.len() <= v.len()
            &&& v.take(acc.len() as int) == acc
            &&& s == esc(v.skip(acc.len() as int)) + seq!['"'] + r
        },
    decreases s.len(),
{
    if s.len() == 0 {
    } else if s[0] == '"' {
        if parse_str_body(s, acc) is Some {
            let (v, r) = parse_str_body(s, acc).unwrap();
            assert(v == acc && r == s.drop_first());
            assert(v.take(acc.len() as int) =~= acc);
            assert(v.skip(acc.len() as int) =~= Seq::<char>::empty());
            assert(s =~= esc(Seq::<char>::empty()) + seq!['"'] + r);
        }
    } else if s[0] == '\\' {
        if s.len() >= 2 && (s[1] == '"' || s[1] == '\\') {
            lemma_canon_str_body(s.skip(2), acc.push(s[1]));
            if parse_str_body(s, acc) is Some {
                let (v, r) = parse_str_body(s, acc).unwrap();
                let al = acc.len() as int;
                assert(parse_str_body(s.skip(2), acc.push(s[1])) == Some((v, r)));
                assert(acc.push(s[1]).len() <= v.len());
                assert(v.take(al + 1) == acc.push(s[1]));
                assert(s.skip(2) == esc(v.skip(al + 1)) + seq!['"'] + r);
                let w = v.skip(al);
                assert(w.len() >= 1);
                assert(v.take(al + 1)[al] == s[1]);
                assert(v[al] == s[1]);
                assert(w[0] == s[1]);
                assert(w.drop_first() =~= v.skip(al + 1));
                assert(esc(w) == esc_char(w[0]) + esc(w.drop_first()));
                assert(esc_char(s[1]) =~= seq!['\\', s[1]]);
                assert(v.take(al) =~= acc) by {
                    assert(forall|i: int| 0 <= i < al ==> v.take(al)[i] == v.take(al + 1)[i]);
                }
                assert(s =~= seq!['\\', s[1]] + s.skip(2));
                assert(s =~= esc(w) + seq!['"'] + r);
            }
        }
    } else {
        lemma_canon_str_body(s.drop_first(), acc.push(s[0]));
        if parse_str_body(s, acc) is Some {
            let (v, r) = parse_str_body(s, acc).unwrap();
            let al = acc.len() as int;
            assert(parse_str_body(s.drop_first(), acc.push(s[0])) == Some((v, r)));
            assert(acc.push(s[0]).len() <= v.len());
            assert(v.take(al + 1) == acc.push(s[0]));
            assert(s.drop_first() == esc(v.skip(al + 1)) + seq!['"'] + r);
            let w = v.skip(al);
            assert(w.len() >= 1);
            assert(v.take(al + 1)[al] == s[0]);
            assert(v[al] == s[0]);
            assert(w[0] == s[0]);
            assert(w.drop_first() =~= v.skip(al + 1));
            assert(esc(w) == esc_char(w[0]) + esc(w.drop_first()));
            assert(esc_char(s[0]) =~= seq![s[0]]);
            assert(v.take(al) =~= acc) by {
                assert(forall|i: int| 0 <= i < al ==> v.take(al)[i] == v.take(al + 1)[i]);
            }
            assert(s =~= seq![s[0]] + s.drop_first());
            assert(s =~= esc(w) + seq!['"'] + r);
        }
    }
}

/// What a string read consumes is exactly the rendering of the string it
/// returns.
pub proof fn lemma_canon_string(s: Seq<char>)
    ensures
        parse_string(s) matches Some((v, r)) ==> s == render_string(v) + r,
{
    if parse_string(s) is Some {
        let (v, r) = parse_string(s).unwrap();
        lemma_canon_str_body(s.drop_first(), Seq::empty());
        assert(v.take(0) =~= Seq::<char>::empty());
        assert(v.skip(0) =~= v);
        assert(s[0] == '"');
        assert(s =~= seq!['"'] + s.drop_first());
        assert(s =~= render_string(v) + r);
    }
}

/// What a literal read consumes is the literal itself.
pub proof fn lemma_canon_lit(s: Seq<char>, lit: Seq<char>)
    ensures
        parse_lit(s, lit) matches Some(r) ==> s == lit + r,
{
    if parse_lit(s, lit) is Some {
        assert(s =~= s.take(lit.len() as int) + s.skip(lit.len() as int));
    }
}

/// What a message read consumes is exactly the rendering of the payload
/// it returns.
#[verifier::rlimit(100)]
pub proof fn lemma_canon_simple(s: Seq<char>)
    ensures
        parse_simple(s) matches Some((v, r)) ==> s == render_simple(v) + r,
{
    if parse_simple(s) is Some {
        let a = "{\"type\":"@;
        let b = ",\"text\":"@;
        let c = "}"@;
        let s1 = parse_lit(s, a).unwrap();
        lemma_canon_lit(s, a);
        lemma_canon_string(s1);
        let (ty, s2) = parse_string(s1).unwrap();
        let s3 = parse_lit(s2, b).unwrap();
        lemma_canon_lit(s2, b);
        lemma_canon_string(s3);
        let (tx, s4) = parse_string(s3).unwrap();
        let s5 = parse_lit(s4, c).unwrap();
        lemma_canon_lit(s4, c);
        let v = parse_simple(s).unwrap().0;
        assert(s =~= render_simple(v) + s5);
    }
}

/// What an action read consumes is exactly the rendering of the action it
/// returns.
#[verifier::rlimit(100)]
pub proof fn lemma_canon_todo(s: Seq<char>)
    ensures
        parse_todo(s) matches Some((v, r)) ==> s == render_todo(v) + r,
{
    if parse_todo(s) is Some {
        let (v, r) = parse_todo(s).unwrap();
        if parse_lit(s, "\"Test\""@) is Some {
            lemma_canon_lit(s, "\"Test\""@);
        } else if parse_lit(s, "\"Nothing\""@) is Some {
            lemma_canon_lit(s, "\"Nothing\""@);
        } else if parse_lit(s, "{\"CreateAttendanceCheck\":{\"hour\":"@) is Some {
            let lit = "{\"CreateAttendanceCheck\":{\"hour\":"@;
            let s1 = parse_lit(s, lit).unwrap();
            lemma_canon_lit(s, lit);
            lemma_canon_nat(s1, HOUR_MAX as nat);
            let (hour, s2) = parse_nat_upto(s1, HOUR_MAX as nat).unwrap();
            let s3 = parse_lit(s2, "}}"@).unwrap();
            lemma_canon_lit(s2, "}}"@);
            assert(s =~= render_todo(v) + s3);
        } else if parse_lit(s, "{\"SendAttendanceInfo\":{\"attendance_id\":"@) is Some {
            let lit = "{\"SendAttendanceInfo\":{\"attendance_id\":"@;
            let s1 = parse_lit(s, lit).unwrap();
            lemma_canon_lit(s, lit);
            lemma_canon_string(s1);
            let (aid, s2) = parse_string(s1).unwrap();
            let s3 = parse_lit(s2, "}}"@).unwrap();
            lemma_canon_lit(s2, "}}"@);
            assert(s =~= render_todo(v) + s3);
        } else {
            let lit = "{\"SendMessage\":{\"contents\":"@;
            let s1 = parse_lit(s, lit).unwrap();
            lemma_canon_lit(s, lit);
            lemma_canon_simple(s1);
            let (m, s2) = parse_simple(s1).unwrap();
            let s3 = parse_lit(s2, "}}"@).unwrap();
            lemma_canon_lit(s2, "}}"@);
            assert(s =~= render_todo(v) + s3);
        }
    }
}

/// What an exception read consumes is exactly the rendering of the entry
/// it returns.
#[verifier::rlimit(100)]
pub proof fn lemma_canon_exception(s: Seq<char>)
    ensures
        parse_exception(s) matches Some((v, r)) ==> s == render_exception(v) + r,
{
    if parse_exception(s) is Some {
        let a = "{\"id\":"@;
        let b = ",\"todo\":"@;
        let c = ",\"datetime\":"@;
        let d = "}"@;
        let s1 = parse_lit(s, a).unwrap();
        lemma_canon_lit(s, a);
        lemma_canon_string(s1);
        let (id, s2) = parse_string(s1).unwrap();
        let s3 = parse_lit(s2, b).unwrap();
        lemma_canon_lit(s2, b);
        lemma_canon_todo(s3);
        let (todo, s4) = parse_todo(s3).unwrap();
        let s5 = parse_lit(s4, c).unwrap();
        lemma_canon_lit(s4, c);
        lemma_canon_nat(s5, INSTANT_MAX as nat);
        let (dt, s6) = parse_nat_upto(s5, INSTANT_MAX as nat).unwrap();
        let s7 = parse_lit(s6, d).unwrap();
        lemma_canon_lit(s6, d);
        let v = parse_exception(s).unwrap().0;
        assert(s =~= render_exception(v) + s7);
    }
}

/// What an exception-list-tail read consumes is exactly the rendering of
/// the entries it adds.
#[verifier::rlimit(100)]
#[verifier::spinoff_prover]
pub proof fn lemma_canon_exc_rest(s: Seq<char>, acc: Seq<ExceptionView>)
    ensures
        parse_exc_rest(s, acc) matches Some((w, r)) ==> {
            &&& acc.len() <= w.len()
            &&& w.take(acc.len() as int) == acc
            &&& s == render_exc_rest(w.skip(acc.len() as int)) + r
        },
    decreases s.len(),
{
    if s.len() > 0 && s[0] == ',' {
        match parse_exception(s.drop_first()) {
            None => {}
            Some((e, rem)) => {
                lemma_parse_exception_consumes(s.drop_first());
                lemma_canon_exception(s.drop_first());
                lemma_canon_exc_rest(rem, acc.push(e));
                if parse_exc_rest(s, acc) is Some {
                    let (w, r) = parse_exc_rest(s, acc).unwrap();
                    let al = acc.len() as int;
                    assert(w.take(al + 1) == acc.push(e));
                    assert(w.take(al + 1)[al] == e);
                    assert(w[al] == e);
                    assert(w.take(al) =~= acc) by {
                        assert(forall|i: int| 0 <= i < al ==> w.take(al)[i] == w.take(
                            al + 1,
                        )[i]);
                    }
                    let tail = w.skip(al);
                    assert(tail.len() >= 1);
                    assert(tail[0] == e);
                    assert(tail.drop_first() =~= w.skip(al + 1));
                    assert(rem =~= render_exc_rest(w.skip(al + 1)) + r);
                    assert(s.drop_first() =~= render_exception(e) + (render_exc_rest(w.skip(al + 1))
                        + r));
                    assert(render_exc_rest(tail) == seq![','] + render_exception(e)
                        + render_exc_rest(w.skip(al + 1)));
                    assert(s =~= seq![','] + s.drop_first());
                    assert(s =~= render_exc_rest(tail) + r);
                }
            }
        }
    } else {
        if parse_exc_rest(s, acc) is Some {
            let (w, r) = parse_exc_rest(s, acc).unwrap();
            assert(w.take(acc.len() as int) =~= acc);
            assert(w.skip(acc.len() as int) =~= Seq::<ExceptionView>::empty());
            assert(s =~= render_exc_rest(Seq::<ExceptionView>::empty()) + s);
        }
    }
}

/// What an exception-list read consumes is exactly the rendering of the
/// list it returns.
#[verifier::rlimit(100)]
pub proof fn lemma_canon_exc_list(s: Seq<char>)
    ensures
        parse_exc_list(s) matches Some((w, r)) ==> s == render_exc_list(w) + r,
{
    if parse_exc_list(s) is Some {
        if s.len() > 0 && s[0] == ']' {
            assert(s =~= render_exc_list(Seq::<ExceptionView>::empty()) + s);
        } else {
            let (e, rem) = parse_exception(s).unwrap();
            lemma_canon_exception(s);
            lemma_canon_exc_rest(rem, seq![e]);
            let (w, r) = parse_exc_list(s).unwrap();
            assert(w.take(1) == seq![e]);
            assert(w.take(1)[0] == e);
            assert(w[0] == e);
            assert(w.len() >= 1);
            assert(w.skip(1) =~= w.drop_first());
            assert(render_exc_list(w) == render_exception(w[0]) + render_exc_rest(
                w.drop_first(),
            ));
            assert(s =~= render_exc_list(w) + r);
        }
    }
}

/// The weekday read back from an index is the one whose index was written.
pub proof fn lemma_weekday_index_inverse(i: int)
    requires
        0 <= i <= 6,
    ensures
        crate::clock::weekday_from_index(i).index() == i,
{
}

/// What a trigger read consumes is exactly the rendering of the rule it
/// returns.
#[verifier::rlimit(100)]
pub proof fn lemma_canon_trigger(s: Seq<char>)
    ensures
        parse_trigger(s) matches Some((v, r)) ==> s == render_trigger(v) + r,
{
    if parse_trigger(s) is Some {
        let (v, r) = parse_trigger(s).unwrap();
        if parse_lit(s, "{\"OneTime\":{\"datetime\":"@) is Some {
            let lit = "{\"OneTime\":{\"datetime\":"@;
            let s1 = parse_lit(s, lit).unwrap();
            lemma_canon_lit(s, lit);
            lemma_canon_nat(s1, INSTANT_MAX as nat);
            let (dt, s2) = parse_nat_upto(s1, INSTANT_MAX as nat).unwrap();
            let s3 = parse_lit(s2, "}}"@).unwrap();
            lemma_canon_lit(s2, "}}"@);
            assert(s =~= render_trigger(v) + s3);
        } else {
            let lit = "{\"Weekly\":{\"weekday\":"@;
            let s1 = parse_lit(s, lit).unwrap();
            lemma_canon_lit(s, lit);
            let c = s1[0];
            lemma_digit_char_inverse(c);
            lemma_weekday_index_inverse(digit_val(c) as int);
            let wd = crate::clock::weekday_from_index(digit_val(c) as int);
            assert(seq![digit_char(wd.index())] =~= seq![c]);
            let s2 = parse_lit(s1.drop_first(), ",\"time\":"@).unwrap();
            lemma_canon_lit(s1.drop_first(), ",\"time\":"@);
            lemma_canon_nat(s2, 86399nat);
            let (time, s3) = parse_nat_upto(s2, 86399nat).unwrap();
            let s4 = parse_lit(s3, ",\"exception\":["@).unwrap();
            lemma_canon_lit(s3, ",\"exception\":["@);
            lemma_canon_exc_list(s4);
            let (exc, s5) = parse_exc_list(s4).unwrap();
            let s6 = parse_lit(s5, "]}}"@).unwrap();
            lemma_canon_lit(s5, "]}}"@);
            assert(s1 =~= seq![c] + s1.drop_first());
            assert(s =~= render_trigger(v) + s6);
        }
    }
}

/// What a schedule-record read consumes is exactly the rendering of the
/// record it returns.
#[verifier::rlimit(100)]
#[verifier::spinoff_prover]
pub proof fn lemma_canon_schedule(s: Seq<char>)
    ensures
        parse_schedule(s) matches Some((v, r)) ==> s == render_schedule(v) + r,
{
    if parse_schedule(s) is Some {
        let a = "{\"id\":"@;
        let b = ",\"todo\":"@;
        let c = ",\"schedule_type\":"@;
        let d = "}"@;
        let s1 = parse_lit(s, a).unwrap();
        lemma_canon_lit(s, a);
        lemma_canon_string(s1);
        let (id, s2) = parse_string(s1).unwrap();
        let s3 = parse_lit(s2, b).unwrap();
        lemma_canon_lit(s2, b);
        lemma_canon_todo(s3);
        let (todo, s4) = parse_todo(s3).unwrap();
        let s5 = parse_lit(s4, c).unwrap();
        lemma_canon_lit(s4, c);
        lemma_canon_trigger(s5);
        let (st, s6) = parse_trigger(s5).unwrap();
        let s7 = parse_lit(s6, d).unwrap();
        lemma_canon_lit(s6, d);
        let v = parse_schedule(s).unwrap().0;
        assert(v.id == id && v.todo == todo && v.schedule_type == st);
        assert(s5 =~= render_trigger(st) + (d + s7));
        assert(s4 =~= c + (render_trigger(st) + (d + s7)));
        assert(s3 =~= render_todo(todo) + (c + (render_trigger(st) + (d + s7))));
        assert(s2 =~= b + (render_todo(todo) + (c + (render_trigger(st) + (d + s7)))));
        assert(s1 =~= render_string(id) + (b + (render_todo(todo) + (c + (render_trigger(st) + (
        d + s7))))));
        assert(s =~= a + (render_string(id) + (b + (render_todo(todo) + (c + (render_trigger(
            st,
        ) + (d + s7)))))));
        assert(render_schedule(v) + s7 =~= a + (render_string(id) + (b + (render_todo(todo) + (c
            + (render_trigger(st) + (d + s7)))))));
    }
}

/// What a schedule-list-tail read consumes is exactly the rendering of the
/// records it adds.
#[verifier::rlimit(100)]
#[verifier::spinoff_prover]
pub proof fn lemma_canon_sched_rest(s: Seq<char>, acc: Seq<ScheduleView>)
    ensures
        parse_sched_rest(s, acc) matches Some((w, r)) ==> {
            &&& acc.len() <= w.len()
            &&& w.take(acc.len() as int) == acc
            &&& s == render_sched_rest(w.skip(acc.len() as int)) + r
        },
    decreases s.len(),
{
    if s.len() > 0 && s[0] == ',' {
        match parse_schedule(s.drop_first()) {
            None => {}
            Some((e, rem)) => {
                lemma_parse_schedule_consumes(s.drop_first());
                lemma_canon_schedule(s.drop_first());
                lemma_canon_sched_rest(rem, acc.push(e));
                if parse_sched_rest(s, acc) is Some {
                    let (w, r) = parse_sched_rest(s, acc).unwrap();
                    let al = acc.len() as int;
                    assert(w.take(al + 1) == acc.push(e));
                    assert(w.take(al + 1)[al] == e);
                    assert(w[al] == e);
                    assert(w.take(al) =~= acc) by {
                        assert(forall|i: int| 0 <= i < al ==> w.take(al)[i] == w.take(
                            al + 1,
                        )[i]);
                    }
                    let tail = w.skip(al);
                    assert(tail.len() >= 1);
                    assert(tail[0] == e);
                    assert(tail.drop_first() =~= w.skip(al + 1));
                    assert(rem =~= render_sched_rest(w.skip(al + 1)) + r);
                    assert(s.drop_first() =~= render_schedule(e) + (render_sched_rest(w.skip(al + 1))
                        + r));
                    assert(render_sched_rest(tail) == seq![','] + render_schedule(e)
                        + render_sched_rest(w.skip(al + 1)));
                    assert(s =~= seq![','] + s.drop_first());
                    assert(s =~= render_sched_rest(tail) + r);
                }
            }
        }
    } else {
        if parse_sched_rest(s, acc) is Some {
            let (w, r) = parse_sched_rest(s, acc).unwrap();
            assert(w.take(acc.len() as int) =~= acc);
            assert(w.skip(acc.len() as int) =~= Seq::<ScheduleView>::empty());
            assert(s =~= render_sched_rest(Seq::<ScheduleView>::empty()) + s);
        }
    }
}

/// What a schedule-list read consumes is exactly the rendering of the list
/// it returns.
#[verifier::rlimit(100)]
pub proof fn lemma_canon_sched_list(s: Seq<char>)
    ensures
        parse_sched_list(s) matches Some((w, r)) ==> s == render_sched_list(w) + r,
{
    if parse_sched_list(s) is Some {
        if s.len() > 0 && s[0] == ']' {
            assert(s =~= render_sched_list(Seq::<ScheduleView>::empty()) + s);
        } else {
            let (e, rem) = parse_schedule(s).unwrap();
            lemma_canon_schedule(s);
            lemma_canon_sched_rest(rem, seq![e]);
            let (w, r) = parse_sched_list(s).unwrap();
            assert(w.take(1) == seq![e]);
            assert(w.take(1)[0] == e);
            assert(w[0] == e);
            assert(w.len() >= 1);
            assert(w.skip(1) =~= w.drop_first());
            assert(render_sched_list(w) == render_schedule(w[0]) + render_sched_rest(
                w.drop_first(),
            ));
            assert(s =~= render_sched_list(w) + r);
        }
    }
}

/// Saving what a document loads to reproduces the document itself, byte
/// for byte: the canonical text is the unique document of its collection.
#[verifier::rlimit(100)]
pub proof fn lemma_save_load_identity(d: Seq<char>)
    ensures
        parse_document_spec(d) matches Some(v) ==> render_document_spec(v) == d,
{
    if parse_document_spec(d) is Some {
        let v = parse_document_spec(d).unwrap();
        lemma_canon_sched_list(d.drop_first());
        let (w, r) = parse_sched_list(d.drop_first()).unwrap();
        assert(r =~= seq![']']);
        assert(d =~= seq![d[0]] + d.drop_first());
        assert(render_document_spec(v) =~= d);
    }
}

} // verus!
