//! The database text format: a JSON object that maps each record's decimal
//! id to an object `{"id":N,"key":"...","value":"..."}`. `ser_store` is the
//! canonical rendering (compact, entries ascending by id); the parser takes
//! any amount of JSON whitespace between tokens and the entries in any
//! order, so compact and pretty-printed texts alike load, and it checks
//! that each entry's label equals its record's id and that no id repeats.
//! The two invert each other (`lemma_store_roundtrip`).
use vstd::prelude::*;

use crate::chars::{dec_of, digit_char_spec, digit_val_spec, is_digit_char, lemma_dec_of_digits};
use crate::store::{sorted_by_id, RecView, Record, Store};

verus! {

// ---------------------------------------------------------------------------
// Serialization, as a mathematical function.
// ---------------------------------------------------------------------------
/// How one character is written inside a quoted string: quote, backslash,
/// newline, carriage return, tab, backspace and form feed get their
/// two-character JSON escape, everything else stands for itself.
pub open spec fn esc_char(c: char) -> Seq<char> {
    if c == '"' {
        seq!['\\', '"']
    } else if c == '\\' {
        seq!['\\', '\\']
    } else if c == '\n' {
        seq!['\\', 'n']
    } else if c == '\r' {
        seq!['\\', 'r']
    } else if c == '\t' {
        seq!['\\', 't']
    } else if c == '\u{8}' {
        seq!['\\', 'b']
    } else if c == '\u{c}' {
        seq!['\\', 'f']
    } else {
        seq![c]
    }
}

pub open spec fn esc_str(s: Seq<char>) -> Seq<char>
    decreases s.len(),
{
    if s.len() == 0 {
        Seq::empty()
    } else {
        esc_char(s[0]) + esc_str(s.drop_first())
    }
}

/// `{"id":`
pub open spec fn lit_id() -> Seq<char> {
    seq!['{', '"', 'i', 'd', '"', ':']
}

/// `,"key":"`
pub open spec fn lit_key() -> Seq<char> {
    seq![',', '"', 'k', 'e', 'y', '"', ':', '"']
}

/// `,"value":"`
pub open spec fn lit_value() -> Seq<char> {
    seq![',', '"', 'v', 'a', 'l', 'u', 'e', '"', ':', '"']
}

/// The record object: `{"id":N,"key":"K","value":"V"}`.
pub open spec fn ser_record(r: RecView) -> Seq<char> {
    lit_id() + dec_of(r.id as nat) + lit_key() + esc_str(r.key) + seq!['"'] + lit_value()
        + esc_str(r.value) + seq!['"', '}']
}

/// One entry of the outer object: `"N":` followed by the record object.
pub open spec fn ser_entry(r: RecView) -> Seq<char> {
    seq!['"'] + dec_of(r.id as nat) + seq!['"', ':'] + ser_record(r)
}

/// Every entry after the first, each preceded by a comma.
pub open spec fn ser_tail(s: Seq<RecView>) -> Seq<char>
    decreases s.len(),
{
    if s.len() == 0 {
        Seq::empty()
    } else {
        seq![','] + ser_entry(s[0]) + ser_tail(s.drop_first())
    }
}

/// The whole database text.
pub open spec fn ser_store(s: Seq<RecView>) -> Seq<char> {
    if s.len() == 0 {
        seq!['{', '}']
    } else {
        seq!['{'] + ser_entry(s[0]) + ser_tail(s.drop_first()) + seq!['}']
    }
}

// ---------------------------------------------------------------------------
// Parsing, as a mathematical function. Each parser eats a prefix and hands
// back the rest.
// ---------------------------------------------------------------------------
/// Consumes the literal `l` from the front of `s`.
pub open spec fn expect(s: Seq<char>, l: Seq<char>) -> Option<Seq<char>> {
    if l.len() <= s.len() && s.take(l.len() as int) == l {
        Some(s.skip(l.len() as int))
    } else {
        None
    }
}

/// The whitespace JSON allows between tokens.
pub open spec fn is_ws(c: char) -> bool {
    c == ' ' || c == '\t' || c == '\n' || c == '\r'
}

/// `s` without its leading whitespace.
pub open spec fn skip_ws(s: Seq<char>) -> Seq<char>
    decreases s.len(),
{
    if s.len() > 0 && is_ws(s[0]) {
        skip_ws(s.drop_first())
    } else {
        s
    }
}

/// Consumes optional whitespace, then the literal `l`.
pub open spec fn expect_ws(s: Seq<char>, l: Seq<char>) -> Option<Seq<char>> {
    expect(skip_ws(s), l)
}

/// `"id"`
pub open spec fn tok_id() -> Seq<char> {
    seq!['"', 'i', 'd', '"']
}

/// `"key"`
pub open spec fn tok_key() -> Seq<char> {
    seq!['"', 'k', 'e', 'y', '"']
}

/// `"value"`
pub open spec fn tok_value() -> Seq<char> {
    seq!['"', 'v', 'a', 'l', 'u', 'e', '"']
}

/// Consumes decimal digits into `acc`, rejecting values past `u64::MAX`.
pub open spec fn parse_digits(s: Seq<char>, acc: u64) -> Option<(u64, Seq<char>)>
    decreases s.len(),
{
    if s.len() == 0 || !is_digit_char(s[0]) {
        Some((acc, s))
    } else {
        let d = digit_val_spec(s[0])->Some_0;
        if acc > u64::MAX / 10 || (acc == u64::MAX / 10 && d > (u64::MAX % 10) as u8) {
            None
        } else {
            parse_digits(s.drop_first(), (10 * acc + d) as u64)
        }
    }
}

/// A number: at least one digit.
pub open spec fn parse_dec(s: Seq<char>) -> Option<(u64, Seq<char>)> {
    if s.len() > 0 && is_digit_char(s[0]) {
        parse_digits(s, 0)
    } else {
        None
    }
}

/// The character an escape `\x` stands for. A solidus may be escaped in
/// JSON, so `\/` is read too, though the serializer never writes it.
pub open spec fn unesc_char(c: char) -> Option<char> {
    if c == '"' {
        Some('"')
    } else if c == '\\' {
        Some('\\')
    } else if c == 'n' {
        Some('\n')
    } else if c == 'r' {
        Some('\r')
    } else if c == 't' {
        Some('\t')
    } else if c == 'b' {
        Some('\u{8}')
    } else if c == 'f' {
        Some('\u{c}')
    } else if c == '/' {
        Some('/')
    } else {
        None
    }
}

/// The inside of a quoted string, up to and including the closing quote.
pub open spec fn parse_string_body(s: Seq<char>) -> Option<(Seq<char>, Seq<char>)>
    decreases s.len(),
{
    if s.len() == 0 {
        None
    } else if s[0] == '"' {
        Some((Seq::empty(), s.drop_first()))
    } else if s[0] == '\\' {
        if s.len() < 2 {
            None
        } else {
            match unesc_char(s[1]) {
                None => None,
                Some(c) => match parse_string_body(s.skip(2)) {
                    None => None,
                    Some((body, rest)) => Some((seq![c] + body, rest)),
                },
            }
        }
    } else {
        match parse_string_body(s.drop_first()) {
            None => None,
            Some((body, rest)) => Some((seq![s[0]] + body, rest)),
        }
    }
}

/// The record object `{"id":N,"key":"K","value":"V"}`, with any amount of
/// whitespace between its tokens.
pub open spec fn parse_record(s: Seq<char>) -> Option<(RecView, Seq<char>)> {
    match expect_ws(s, seq!['{']) {
        None => None,
        Some(s1) => match expect_ws(s1, tok_id()) {
            None => None,
            Some(s2) => match expect_ws(s2, seq![':']) {
                None => None,
                Some(s3) => match parse_dec(skip_ws(s3)) {
                    None => None,
                    Some((id, s4)) => match expect_ws(s4, seq![',']) {
                        None => None,
                        Some(s5) => match expect_ws(s5, tok_key()) {
                            None => None,
                            Some(s6) => match expect_ws(s6, seq![':']) {
                                None => None,
                                Some(s7) => match expect_ws(s7, seq!['"']) {
                                    None => None,
                                    Some(s8) => match parse_string_body(s8) {
                                        None => None,
                                        Some((key, s9)) => match expect_ws(s9, seq![',']) {
                                            None => None,
                                            Some(s10) => match expect_ws(s10, tok_value()) {
                                                None => None,
                                                Some(s11) => match expect_ws(s11, seq![':']) {
                                                    None => None,
                                                    Some(s12) => match expect_ws(s12, seq!['"']) {
                                                        None => None,
                                                        Some(s13) => match parse_string_body(s13) {
                                                            None => None,
                                                            Some((value, s14)) => match expect_ws(
                                                                s14,
                                                                seq!['}'],
                                                            ) {
                                                                None => None,
                                                                Some(s15) => Some(
                                                                    (
                                                                        RecView { id, key, value },
                                                                        s15,
                                                                    ),
                                                                ),
                                                            },
                                                        },
                                                    },
                                                },
                                            },
                                        },
                                    },
                                },
                            },
                        },
                    },
                },
            },
        },
    }
}

/// One outer entry `"N":{...}`; its label must equal the record's own id.
/// The label is a quoted string, so no whitespace stands inside it.
pub open spec fn parse_entry(s: Seq<char>) -> Option<(RecView, Seq<char>)> {
    match expect_ws(s, seq!['"']) {
        None => None,
        Some(s1) => match parse_dec(s1) {
            None => None,
            Some((id, s2)) => match expect(s2, seq!['"']) {
                None => None,
                Some(s3) => match expect_ws(s3, seq![':']) {
                    None => None,
                    Some(s4) => match parse_record(s4) {
                        None => None,
                        Some((r, s5)) => if r.id == id {
                            Some((r, s5))
                        } else {
                            None
                        },
                    },
                },
            },
        },
    }
}

/// `r` placed at its position in the id-sorted sequence `s`; `None` when a
/// record with the same id is already there.
pub open spec fn insert_rec(s: Seq<RecView>, r: RecView) -> Option<Seq<RecView>>
    decreases s.len(),
{
    if s.len() == 0 {
        Some(seq![r])
    } else if r.id < s[0].id {
        Some(seq![r] + s)
    } else if r.id == s[0].id {
        None
    } else {
        match insert_rec(s.drop_first(), r) {
            None => None,
            Some(t) => Some(seq![s[0]] + t),
        }
    }
}

/// Entries after the first: a comma then an entry, as long as commas
/// follow, each folded into the id-sorted accumulator. Entries may come in
/// any order; a repeated id rejects the text.
pub open spec fn parse_rest(s: Seq<char>, acc: Seq<RecView>) -> Option<(Seq<RecView>, Seq<char>)>
    decreases s.len(),
{
    if skip_ws(s).len() > 0 && skip_ws(s)[0] == ',' {
        match parse_entry(skip_ws(s).drop_first()) {
            None => None,
            Some((r, s2)) => match insert_rec(acc, r) {
                None => None,
                Some(acc2) => {
                    proof {
                        lemma_skip_ws_len(s);
                        lemma_entry_shrinks(skip_ws(s).drop_first());
                    }
                    parse_rest(s2, acc2)
                },
            },
        }
    } else {
        Some((acc, s))
    }
}

/// The whole database text; only whitespace may follow the closing brace.
pub open spec fn parse_store(s: Seq<char>) -> Option<Seq<RecView>> {
    match expect_ws(s, seq!['{']) {
        None => None,
        Some(s1) => if skip_ws(s1).len() > 0 && skip_ws(s1)[0] == '}' {
            if skip_ws(skip_ws(s1).drop_first()).len() == 0 {
                Some(Seq::empty())
            } else {
                None
            }
        } else {
            match parse_entry(s1) {
                None => None,
                Some((r, s2)) => match parse_rest(s2, seq![r]) {
                    None => None,
                    Some((rs, s3)) => match expect_ws(s3, seq!['}']) {
                        None => None,
                        Some(s4) => if skip_ws(s4).len() == 0 {
                            Some(rs)
                        } else {
                            None
                        },
                    },
                },
            }
        },
    }
}

// ---------------------------------------------------------------------------
// The executable serializer: appends the canonical rendering to a buffer.
// ---------------------------------------------------------------------------
exec fn push_esc_char(c: char, out: &mut Vec<char>)
    ensures
        final(out)@ == old(out)@ + esc_char(c),
{
    if c == '"' {
        out.push('\\');
        out.push('"');
    } else if c == '\\' {
        out.push('\\');
        out.push('\\');
    } else if c == '\n' {
        out.push('\\');
        out.push('n');
    } else if c == '\r' {
        out.push('\\');
        out.push('r');
    } else if c == '\t' {
        out.push('\\');
        out.push('t');
    } else if c == '\u{8}' {
        out.push('\\');
        out.push('b');
    } else if c == '\u{c}' {
        out.push('\\');
        out.push('f');
    } else {
        out.push(c);
    }
    assert(out@ =~= old(out)@ + esc_char(c));
}

exec fn push_esc_from(cs: &Vec<char>, i: usize, out: &mut Vec<char>)
    requires
        i <= cs.len(),
    ensures
        final(out)@ == old(out)@ + esc_str(cs@.skip(i as int)),
    decreases cs.len() - i,
{
    if i == cs.len() {
        assert(out@ =~= old(out)@ + esc_str(cs@.skip(i as int)));
    } else {
        push_esc_char(cs[i], out);
        push_esc_from(cs, i + 1, out);
        proof {
            assert(cs@.skip(i as int)[0] == cs@[i as int]);
            assert(cs@.skip(i as int).drop_first() =~= cs@.skip(i + 1));
            assert(out@ =~= old(out)@ + esc_str(cs@.skip(i as int)));
        }
    }
}

exec fn push_esc_string(s: &String, out: &mut Vec<char>)
    ensures
        final(out)@ == old(out)@ + esc_str(s@),
{
    let cs = crate::chars::chars_of_str(s.as_str());
    push_esc_from(&cs, 0, out);
    proof {
        assert(cs@.skip(0) =~= s@);
    }
}

#[verifier::rlimit(50)]
exec fn push_record(rec: &Record, out: &mut Vec<char>)
    ensures
        final(out)@ == old(out)@ + ser_record(rec@),
{
    out.push('{');
    out.push('"');
    out.push('i');
    out.push('d');
    out.push('"');
    out.push(':');
    assert(out@ =~= old(out)@ + lit_id());
    crate::chars::push_dec(rec.id, out);
    out.push(',');
    out.push('"');
    out.push('k');
    out.push('e');
    out.push('y');
    out.push('"');
    out.push(':');
    out.push('"');
    assert(out@ =~= old(out)@ + lit_id() + dec_of(rec.id as nat) + lit_key());
    push_esc_string(&rec.key, out);
    out.push('"');
    out.push(',');
    out.push('"');
    out.push('v');
    out.push('a');
    out.push('l');
    out.push('u');
    out.push('e');
    out.push('"');
    out.push(':');
    out.push('"');
    assert(out@ =~= old(out)@ + lit_id() + dec_of(rec.id as nat) + lit_key() + esc_str(rec.key@)
        + seq!['"'] + lit_value());
    push_esc_string(&rec.value, out);
    out.push('"');
    out.push('}');
    assert(out@ =~= old(out)@ + ser_record(rec@));
}

exec fn push_entry(rec: &Record, out: &mut Vec<char>)
    ensures
        final(out)@ == old(out)@ + ser_entry(rec@),
{
    out.push('"');
    crate::chars::push_dec(rec.id, out);
    out.push('"');
    out.push(':');
    assert(out@ =~= old(out)@ + seq!['"'] + dec_of(rec.id as nat) + seq!['"', ':']);
    push_record(rec, out);
    assert(out@ =~= old(out)@ + ser_entry(rec@));
}

exec fn push_tail(recs: &Vec<Record>, i: usize, out: &mut Vec<char>)
    requires
        1 <= i <= recs.len(),
    ensures
        final(out)@ == old(out)@ + ser_tail(recs@.map_values(|r: Record| r@).skip(i as int)),
    decreases recs.len() - i,
{
    let ghost v = recs@.map_values(|r: Record| r@);
    if i == recs.len() {
        assert(out@ =~= old(out)@ + ser_tail(v.skip(i as int)));
    } else {
        out.push(',');
        push_entry(&recs[i], out);
        push_tail(recs, i + 1, out);
        proof {
            assert(v.skip(i as int)[0] == v[i as int]);
            assert(v.skip(i as int).drop_first() =~= v.skip(i + 1));
            assert(out@ =~= old(out)@ + ser_tail(v.skip(i as int)));
        }
    }
}

/// Renders the store as its canonical database text.
pub exec fn save_to_string(store: &Store) -> (s: String)
    ensures
        s@ == ser_store(store@),
{
    let recs = store.records();
    let mut out: Vec<char> = Vec::new();
    out.push('{');
    if recs.len() > 0 {
        push_entry(&recs[0], &mut out);
        push_tail(recs, 1, &mut out);
    }
    out.push('}');
    proof {
        let v = store@;
        if v.len() > 0 {
            assert(v.skip(1) =~= v.drop_first());
            assert(out@ =~= ser_store(v));
        } else {
            assert(out@ =~= ser_store(v));
        }
    }
    crate::chars::string_from_chars(&out)
}

// ---------------------------------------------------------------------------
// Each parser consumes part of its input; `parse_rest` needs that to
// terminate, and the exec parsers need it for their positions.
// ---------------------------------------------------------------------------
pub proof fn lemma_digits_shrinks(s: Seq<char>, acc: u64)
    ensures
        parse_digits(s, acc) matches Some((v, r)) ==> r.len() <= s.len(),
    decreases s.len(),
{
    if s.len() > 0 && is_digit_char(s[0]) {
        let d = digit_val_spec(s[0])->Some_0;
        if !(acc > u64::MAX / 10 || (acc == u64::MAX / 10 && d > (u64::MAX % 10) as u8)) {
            lemma_digits_shrinks(s.drop_first(), (10 * acc + d) as u64);
        }
    }
}

pub proof fn lemma_string_shrinks(s: Seq<char>)
    ensures
        parse_string_body(s) matches Some((b, r)) ==> r.len() < s.len(),
    decreases s.len(),
{
    if s.len() > 0 && s[0] != '"' {
        if s[0] == '\\' {
            if s.len() >= 2 {
                lemma_string_shrinks(s.skip(2));
            }
        } else {
            lemma_string_shrinks(s.drop_first());
        }
    }
}

/// Dropping whitespace never lengthens the text.
pub proof fn lemma_skip_ws_len(s: Seq<char>)
    ensures
        skip_ws(s).len() <= s.len(),
    decreases s.len(),
{
    if s.len() > 0 && is_ws(s[0]) {
        lemma_skip_ws_len(s.drop_first());
    }
}

/// A token consumer leaves a strictly shorter rest.
pub proof fn lemma_expect_ws_shrinks(s: Seq<char>, l: Seq<char>)
    requires
        l.len() >= 1,
    ensures
        expect_ws(s, l) matches Some(rest) ==> rest.len() < s.len(),
{
    lemma_skip_ws_len(s);
}

pub proof fn lemma_record_shrinks(s: Seq<char>)
    ensures
        parse_record(s) matches Some((r, rest)) ==> rest.len() < s.len(),
{
    lemma_expect_ws_shrinks(s, seq!['{']);
    if expect_ws(s, seq!['{']) is Some {
        let s1 = expect_ws(s, seq!['{'])->Some_0;
        lemma_expect_ws_shrinks(s1, tok_id());
        if expect_ws(s1, tok_id()) is Some {
            let s2 = expect_ws(s1, tok_id())->Some_0;
            lemma_expect_ws_shrinks(s2, seq![':']);
            if expect_ws(s2, seq![':']) is Some {
                let s3 = expect_ws(s2, seq![':'])->Some_0;
                lemma_skip_ws_len(s3);
                lemma_digits_shrinks(skip_ws(s3), 0);
                if parse_dec(skip_ws(s3)) is Some {
                    let s4 = parse_dec(skip_ws(s3))->Some_0.1;
                    lemma_expect_ws_shrinks(s4, seq![',']);
                    if expect_ws(s4, seq![',']) is Some {
                        let s5 = expect_ws(s4, seq![','])->Some_0;
                        lemma_expect_ws_shrinks(s5, tok_key());
                        if expect_ws(s5, tok_key()) is Some {
                            let s6 = expect_ws(s5, tok_key())->Some_0;
                            lemma_expect_ws_shrinks(s6, seq![':']);
                            if expect_ws(s6, seq![':']) is Some {
                                let s7 = expect_ws(s6, seq![':'])->Some_0;
                                lemma_expect_ws_shrinks(s7, seq!['"']);
                                if expect_ws(s7, seq!['"']) is Some {
                                    let s8 = expect_ws(s7, seq!['"'])->Some_0;
                                    lemma_string_shrinks(s8);
                                    if parse_string_body(s8) is Some {
                                        let s9 = parse_string_body(s8)->Some_0.1;
                                        lemma_rest_of_record_shrinks(s9);
                                    }
                                }
                            }
                        }
                    }
                }
            }
        }
    }
}

/// The tail of the record object after the key string: comma, `"value"`,
/// colon, the value string and the closing brace.
proof fn lemma_rest_of_record_shrinks(s9: Seq<char>)
    ensures
        expect_ws(s9, seq![',']) matches Some(s10) ==> (expect_ws(s10, tok_value())
            matches Some(s11) ==> (expect_ws(s11, seq![':']) matches Some(s12) ==> (expect_ws(
            s12,
            seq!['"'],
        ) matches Some(s13) ==> (parse_string_body(s13) matches Some((v, s14)) ==> (expect_ws(
            s14,
            seq!['}'],
        ) matches Some(s15) ==> s15.len() < s9.len()))))),
{
    lemma_expect_ws_shrinks(s9, seq![',']);
    if expect_ws(s9, seq![',']) is Some {
        let s10 = expect_ws(s9, seq![','])->Some_0;
        lemma_expect_ws_shrinks(s10, tok_value());
        if expect_ws(s10, tok_value()) is Some {
            let s11 = expect_ws(s10, tok_value())->Some_0;
            lemma_expect_ws_shrinks(s11, seq![':']);
            if expect_ws(s11, seq![':']) is Some {
                let s12 = expect_ws(s11, seq![':'])->Some_0;
                lemma_expect_ws_shrinks(s12, seq!['"']);
                if expect_ws(s12, seq!['"']) is Some {
                    let s13 = expect_ws(s12, seq!['"'])->Some_0;
                    lemma_string_shrinks(s13);
                    if parse_string_body(s13) is Some {
                        let s14 = parse_string_body(s13)->Some_0.1;
                        lemma_expect_ws_shrinks(s14, seq!['}']);
                    }
                }
            }
        }
    }
}

pub proof fn lemma_entry_shrinks(s: Seq<char>)
    ensures
        parse_entry(s) matches Some((r, rest)) ==> rest.len() < s.len(),
{
    lemma_expect_ws_shrinks(s, seq!['"']);
    if expect_ws(s, seq!['"']) is Some {
        let s1 = expect_ws(s, seq!['"'])->Some_0;
        lemma_digits_shrinks(s1, 0);
        if parse_dec(s1) is Some {
            let s2 = parse_dec(s1)->Some_0.1;
            if expect(s2, seq!['"']) is Some {
                let s3 = expect(s2, seq!['"'])->Some_0;
                lemma_expect_ws_shrinks(s3, seq![':']);
                if expect_ws(s3, seq![':']) is Some {
                    let s4 = expect_ws(s3, seq![':'])->Some_0;
                    lemma_record_shrinks(s4);
                }
            }
        }
    }
}

// ---------------------------------------------------------------------------
// The executable parser. Each function mirrors one spec parser; positions
// into the character buffer stand for the spec parsers' rest-sequences.
// ---------------------------------------------------------------------------
/// Advances past the whitespace at `pos`.
exec fn eat_ws(v: &Vec<char>, pos: usize) -> (p: usize)
    requires
        pos <= v.len(),
    ensures
        pos <= p <= v.len(),
        v@.skip(p as int) == skip_ws(v@.skip(pos as int)),
    decreases v.len() - pos,
{
    if pos == v.len() {
        return pos;
    }
    let c = v[pos];
    proof {
        assert(v@.skip(pos as int)[0] == v@[pos as int]);
    }
    if c == ' ' || c == '\t' || c == '\n' || c == '\r' {
        proof {
            assert(v@.skip(pos as int).drop_first() =~= v@.skip(pos + 1));
        }
        eat_ws(v, pos + 1)
    } else {
        pos
    }
}

/// Consumes the single character `c` at `pos`, with no whitespace before it.
exec fn eat_char(v: &Vec<char>, pos: usize, c: char) -> (r: Option<usize>)
    requires
        pos <= v.len(),
    ensures
        match r {
            Some(p2) => pos <= p2 <= v.len() && expect(v@.skip(pos as int), seq![c]) == Some(
                v@.skip(p2 as int),
            ),
            None => expect(v@.skip(pos as int), seq![c]) is None,
        },
{
    if pos < v.len() && v[pos] == c {
        proof {
            assert(v@.skip(pos as int).take(1) =~= seq![c]);
            assert(v@.skip(pos as int).skip(1) =~= v@.skip(pos + 1));
        }
        Some(pos + 1)
    } else {
        proof {
            if pos < v@.len() {
                assert(v@.skip(pos as int).take(1)[0] == v@[pos as int]);
                assert(v@.skip(pos as int).take(1) != seq![c]);
            }
            assert(expect(v@.skip(pos as int), seq![c]) is None);
        }
        None
    }
}

/// Consumes optional whitespace, then the single character `c`.
exec fn eat_tok(v: &Vec<char>, pos: usize, c: char) -> (r: Option<usize>)
    requires
        pos <= v.len(),
    ensures
        match r {
            Some(p2) => pos <= p2 <= v.len() && expect_ws(v@.skip(pos as int), seq![c]) == Some(
                v@.skip(p2 as int),
            ),
            None => expect_ws(v@.skip(pos as int), seq![c]) is None,
        },
{
    let p = eat_ws(v, pos);
    eat_char(v, p, c)
}

/// Consumes optional whitespace, then `"id"`.
exec fn eat_tok_id(v: &Vec<char>, pos: usize) -> (r: Option<usize>)
    requires
        pos <= v.len(),
    ensures
        match r {
            Some(p2) => pos <= p2 <= v.len() && expect_ws(v@.skip(pos as int), tok_id()) == Some(
                v@.skip(p2 as int),
            ),
            None => expect_ws(v@.skip(pos as int), tok_id()) is None,
        },
{
    let p = eat_ws(v, pos);
    if v.len() - p >= 4 && v[p] == '"' && v[p + 1] == 'i' && v[p + 2] == 'd' && v[p + 3] == '"' {
        proof {
            assert(v@.skip(p as int).take(4) =~= tok_id());
            assert(v@.skip(p as int).skip(4) =~= v@.skip(p + 4));
        }
        Some(p + 4)
    } else {
        proof {
            if v@.len() - p >= 4 {
                assert(v@.skip(p as int).take(4)[0] == v@[p as int]);
                assert(v@.skip(p as int).take(4)[1] == v@[p + 1]);
                assert(v@.skip(p as int).take(4)[2] == v@[p + 2]);
                assert(v@.skip(p as int).take(4)[3] == v@[p + 3]);
                assert(v@.skip(p as int).take(4) != tok_id());
            }
            assert(expect_ws(v@.skip(pos as int), tok_id()) is None);
        }
        None
    }
}

/// Consumes optional whitespace, then `"key"`.
exec fn eat_tok_key(v: &Vec<char>, pos: usize) -> (r: Option<usize>)
    requires
        pos <= v.len(),
    ensures
        match r {
            Some(p2) => pos <= p2 <= v.len() && expect_ws(v@.skip(pos as int), tok_key()) == Some(
                v@.skip(p2 as int),
            ),
            None => expect_ws(v@.skip(pos as int), tok_key()) is None,
        },
{
    let p = eat_ws(v, pos);
    if v.len() - p >= 5 && v[p] == '"' && v[p + 1] == 'k' && v[p + 2] == 'e' && v[p + 3] == 'y'
        && v[p + 4] == '"' {
        proof {
            assert(v@.skip(p as int).take(5) =~= tok_key());
            assert(v@.skip(p as int).skip(5) =~= v@.skip(p + 5));
        }
        Some(p + 5)
    } else {
        proof {
            if v@.len() - p >= 5 {
                assert(v@.skip(p as int).take(5)[0] == v@[p as int]);
                assert(v@.skip(p as int).take(5)[1] == v@[p + 1]);
                assert(v@.skip(p as int).take(5)[2] == v@[p + 2]);
                assert(v@.skip(p as int).take(5)[3] == v@[p + 3]);
                assert(v@.skip(p as int).take(5)[4] == v@[p + 4]);
                assert(v@.skip(p as int).take(5) != tok_key());
            }
            assert(expect_ws(v@.skip(pos as int), tok_key()) is None);
        }
        None
    }
}

/// Consumes optional whitespace, then `"value"`.
exec fn eat_tok_value(v: &Vec<char>, pos: usize) -> (r: Option<usize>)
    requires
        pos <= v.len(),
    ensures
        match r {
            Some(p2) => pos <= p2 <= v.len() && expect_ws(v@.skip(pos as int), tok_value())
                == Some(v@.skip(p2 as int)),
            None => expect_ws(v@.skip(pos as int), tok_value()) is None,
        },
{
    let p = eat_ws(v, pos);
    if v.len() - p >= 7 && v[p] == '"' && v[p + 1] == 'v' && v[p + 2] == 'a' && v[p + 3] == 'l'
        && v[p + 4] == 'u' && v[p + 5] == 'e' && v[p + 6] == '"' {
        proof {
            assert(v@.skip(p as int).take(7) =~= tok_value());
            assert(v@.skip(p as int).skip(7) =~= v@.skip(p + 7));
        }
        Some(p + 7)
    } else {
        proof {
            if v@.len() - p >= 7 {
                assert(v@.skip(p as int).take(7)[0] == v@[p as int]);
                assert(v@.skip(p as int).take(7)[1] == v@[p + 1]);
                assert(v@.skip(p as int).take(7)[2] == v@[p + 2]);
                assert(v@.skip(p as int).take(7)[3] == v@[p + 3]);
                assert(v@.skip(p as int).take(7)[4] == v@[p + 4]);
                assert(v@.skip(p as int).take(7)[5] == v@[p + 5]);
                assert(v@.skip(p as int).take(7)[6] == v@[p + 6]);
                assert(v@.skip(p as int).take(7) != tok_value());
            }
            assert(expect_ws(v@.skip(pos as int), tok_value()) is None);
        }
        None
    }
}

exec fn p_u64(v: &Vec<char>, pos: usize, acc: u64) -> (r: Option<(u64, usize)>)
    requires
        pos <= v.len(),
    ensures
        match r {
            Some((n, p2)) => pos <= p2 <= v.len() && parse_digits(v@.skip(pos as int), acc)
                == Some((n, v@.skip(p2 as int))),
            None => parse_digits(v@.skip(pos as int), acc) is None,
        },
    decreases v.len() - pos,
{
    if pos == v.len() {
        proof {
            assert(v@.skip(pos as int) =~= Seq::<char>::empty());
        }
        return Some((acc, pos));
    }
    proof {
        assert(v@.skip(pos as int)[0] == v@[pos as int]);
    }
    match crate::chars::digit_val(v[pos]) {
        None => Some((acc, pos)),
        Some(d) => {
            if acc > u64::MAX / 10 || (acc == u64::MAX / 10 && d > (u64::MAX % 10) as u8) {
                None
            } else {
                proof {
                    assert(v@.skip(pos as int).drop_first() =~= v@.skip(pos + 1));
                }
                p_u64(v, pos + 1, 10 * acc + d as u64)
            }
        },
    }
}

exec fn p_dec(v: &Vec<char>, pos: usize) -> (r: Option<(u64, usize)>)
    requires
        pos <= v.len(),
    ensures
        match r {
            Some((n, p2)) => pos <= p2 <= v.len() && parse_dec(v@.skip(pos as int)) == Some(
                (n, v@.skip(p2 as int)),
            ),
            None => parse_dec(v@.skip(pos as int)) is None,
        },
{
    if pos == v.len() {
        return None;
    }
    proof {
        assert(v@.skip(pos as int)[0] == v@[pos as int]);
    }
    match crate::chars::digit_val(v[pos]) {
        None => None,
        Some(_) => p_u64(v, pos, 0),
    }
}

exec fn unescape(c: char) -> (r: Option<char>)
    ensures
        r == unesc_char(c),
{
    if c == '"' {
        Some('"')
    } else if c == '\\' {
        Some('\\')
    } else if c == 'n' {
        Some('\n')
    } else if c == 'r' {
        Some('\r')
    } else if c == 't' {
        Some('\t')
    } else if c == 'b' {
        Some('\u{8}')
    } else if c == 'f' {
        Some('\u{c}')
    } else if c == '/' {
        Some('/')
    } else {
        None
    }
}

exec fn p_string_body(v: &Vec<char>, pos: usize, out: &mut Vec<char>) -> (r: Option<usize>)
    requires
        pos <= v.len(),
    ensures
        match r {
            Some(p2) => pos < p2 <= v.len() && (parse_string_body(v@.skip(pos as int))
                matches Some((body, rest)) && final(out)@ == old(out)@ + body && v@.skip(p2 as int)
                == rest),
            None => parse_string_body(v@.skip(pos as int)) is None,
        },
    decreases v.len() - pos,
{
    if pos == v.len() {
        return None;
    }
    proof {
        assert(v@.skip(pos as int)[0] == v@[pos as int]);
    }
    let c = v[pos];
    if c == '"' {
        proof {
            assert(v@.skip(pos as int).drop_first() =~= v@.skip(pos + 1));
            assert(out@ =~= out@ + Seq::<char>::empty());
        }
        Some(pos + 1)
    } else if c == '\\' {
        if v.len() - pos < 2 {
            return None;
        }
        proof {
            assert(v@.skip(pos as int)[1] == v@[pos + 1]);
        }
        match unescape(v[pos + 1]) {
            None => None,
            Some(c0) => {
                out.push(c0);
                let ghost mid = out@;
                proof {
                    assert(v@.skip(pos as int).skip(2) =~= v@.skip(pos + 2));
                }
                match p_string_body(v, pos + 2, out) {
                    None => None,
                    Some(p2) => {
                        proof {
                            let body = parse_string_body(v@.skip(pos + 2))->Some_0.0;
                            assert(out@ =~= old(out)@ + (seq![c0] + body));
                        }
                        Some(p2)
                    },
                }
            },
        }
    } else {
        out.push(c);
        proof {
            assert(v@.skip(pos as int).drop_first() =~= v@.skip(pos + 1));
        }
        match p_string_body(v, pos + 1, out) {
            None => None,
            Some(p2) => {
                proof {
                    let body = parse_string_body(v@.skip(pos + 1))->Some_0.0;
                    assert(out@ =~= old(out)@ + (seq![c] + body));
                }
                Some(p2)
            },
        }
    }
}

exec fn p_record(v: &Vec<char>, pos: usize) -> (r: Option<(Record, usize)>)
    requires
        pos <= v.len(),
    ensures
        match r {
            Some((rec, p2)) => pos <= p2 <= v.len() && parse_record(v@.skip(pos as int)) == Some(
                (rec@, v@.skip(p2 as int)),
            ),
            None => parse_record(v@.skip(pos as int)) is None,
        },
{
    let p1 = match eat_tok(v, pos, '{') {
        None => return None,
        Some(p) => p,
    };
    let p2 = match eat_tok_id(v, p1) {
        None => return None,
        Some(p) => p,
    };
    let p3 = match eat_tok(v, p2, ':') {
        None => return None,
        Some(p) => p,
    };
    let p3w = eat_ws(v, p3);
    let (id, p4) = match p_dec(v, p3w) {
        None => return None,
        Some(x) => x,
    };
    let p5 = match eat_tok(v, p4, ',') {
        None => return None,
        Some(p) => p,
    };
    let p6 = match eat_tok_key(v, p5) {
        None => return None,
        Some(p) => p,
    };
    let p7 = match eat_tok(v, p6, ':') {
        None => return None,
        Some(p) => p,
    };
    let p8 = match eat_tok(v, p7, '"') {
        None => return None,
        Some(p) => p,
    };
    let mut kbuf: Vec<char> = Vec::new();
    let p9 = match p_string_body(v, p8, &mut kbuf) {
        None => return None,
        Some(p) => p,
    };
    let p10 = match eat_tok(v, p9, ',') {
        None => return None,
        Some(p) => p,
    };
    let p11 = match eat_tok_value(v, p10) {
        None => return None,
        Some(p) => p,
    };
    let p12 = match eat_tok(v, p11, ':') {
        None => return None,
        Some(p) => p,
    };
    let p13 = match eat_tok(v, p12, '"') {
        None => return None,
        Some(p) => p,
    };
    let mut vbuf: Vec<char> = Vec::new();
    let p14 = match p_string_body(v, p13, &mut vbuf) {
        None => return None,
        Some(p) => p,
    };
    let p15 = match eat_tok(v, p14, '}') {
        None => return None,
        Some(p) => p,
    };
    proof {
        assert(kbuf@ =~= Seq::<char>::empty() + parse_string_body(v@.skip(p8 as int))->Some_0.0);
        assert(vbuf@ =~= Seq::<char>::empty() + parse_string_body(v@.skip(p13 as int))->Some_0.0);
    }
    let key = crate::chars::string_from_chars(&kbuf);
    let value = crate::chars::string_from_chars(&vbuf);
    Some((Record { id, key, value }, p15))
}

exec fn p_entry(v: &Vec<char>, pos: usize) -> (r: Option<(Record, usize)>)
    requires
        pos <= v.len(),
    ensures
        match r {
            Some((rec, p2)) => pos <= p2 <= v.len() && parse_entry(v@.skip(pos as int)) == Some(
                (rec@, v@.skip(p2 as int)),
            ),
            None => parse_entry(v@.skip(pos as int)) is None,
        },
{
    let p1 = match eat_tok(v, pos, '"') {
        None => return None,
        Some(p) => p,
    };
    let (id, p2) = match p_dec(v, p1) {
        None => return None,
        Some(x) => x,
    };
    let p3 = match eat_char(v, p2, '"') {
        None => return None,
        Some(p) => p,
    };
    let p4 = match eat_tok(v, p3, ':') {
        None => return None,
        Some(p) => p,
    };
    match p_record(v, p4) {
        None => None,
        Some((rec, p5)) => {
            if rec.id == id {
                Some((rec, p5))
            } else {
                None
            }
        },
    }
}

/// Inserting before the first id above `r.id` is the sorted insertion.
proof fn lemma_insert_rec_at(s: Seq<RecView>, r: RecView, i: int)
    requires
        sorted_by_id(s),
        0 <= i <= s.len(),
        forall|j: int| 0 <= j < i ==> (#[trigger] s[j]).id < r.id,
        i < s.len() ==> s[i].id > r.id,
    ensures
        insert_rec(s, r) == Some(s.insert(i, r)),
    decreases i,
{
    if i == 0 {
        if s.len() == 0 {
            assert(seq![r] =~= s.insert(0, r));
        } else {
            assert(r.id < s[0].id);
            assert(seq![r] + s =~= s.insert(0, r));
        }
    } else {
        assert(s[0].id < r.id);
        let d = s.drop_first();
        assert forall|p: int, q: int| 0 <= p < q < d.len() implies d[p].id < d[q].id by {
            assert(s[p + 1].id < s[q + 1].id);
        }
        assert forall|j: int| 0 <= j < i - 1 implies (#[trigger] d[j]).id < r.id by {
            assert(s[j + 1].id < r.id);
        }
        assert(i - 1 < d.len() ==> d[i - 1].id > r.id);
        lemma_insert_rec_at(d, r, i - 1);
        assert(seq![s[0]] + d.insert(i - 1, r) =~= s.insert(i, r));
    }
}

/// A second record under an existing id rejects the insertion.
proof fn lemma_insert_rec_dup(s: Seq<RecView>, r: RecView, i: int)
    requires
        sorted_by_id(s),
        0 <= i < s.len(),
        s[i].id == r.id,
        forall|j: int| 0 <= j < i ==> (#[trigger] s[j]).id < r.id,
    ensures
        insert_rec(s, r) is None,
    decreases i,
{
    if i > 0 {
        assert(s[0].id < r.id);
        let d = s.drop_first();
        assert forall|p: int, q: int| 0 <= p < q < d.len() implies d[p].id < d[q].id by {
            assert(s[p + 1].id < s[q + 1].id);
        }
        assert(d[i - 1].id == r.id);
        assert forall|j: int| 0 <= j < i - 1 implies (#[trigger] d[j]).id < r.id by {
            assert(s[j + 1].id < r.id);
        }
        lemma_insert_rec_dup(d, r, i - 1);
    }
}

exec fn p_rest(v: &Vec<char>, pos: usize, out: &mut Vec<Record>) -> (r: Option<usize>)
    requires
        pos <= v.len(),
        sorted_by_id(old(out)@.map_values(|rec: Record| rec@)),
    ensures
        match r {
            Some(p2) => pos <= p2 <= v.len() && (parse_rest(
                v@.skip(pos as int),
                old(out)@.map_values(|rec: Record| rec@),
            ) matches Some((rs, rest)) && final(out)@.map_values(|rec: Record| rec@) == rs
                && v@.skip(p2 as int) == rest),
            None => parse_rest(
                v@.skip(pos as int),
                old(out)@.map_values(|rec: Record| rec@),
            ) is None,
        },
    decreases v.len() - pos,
{
    let ghost acc0 = out@.map_values(|rec: Record| rec@);
    let pw = eat_ws(v, pos);
    if pw == v.len() || v[pw] != ',' {
        proof {
            if pw < v@.len() {
                assert(v@.skip(pw as int)[0] == v@[pw as int]);
            }
        }
        return Some(pos);
    }
    proof {
        assert(v@.skip(pw as int)[0] == v@[pw as int]);
        assert(v@.skip(pw as int).drop_first() =~= v@.skip(pw + 1));
    }
    match p_entry(v, pw + 1) {
        None => None,
        Some((rec, p2)) => {
            let ghost rv = rec@;
            let n = out.len();
            let mut i: usize = 0;
            while i < n && out[i].id < rec.id
                invariant
                    n == out.len(),
                    0 <= i <= n,
                    *out == *old(out),
                    acc0 == out@.map_values(|r2: Record| r2@),
                    rv == rec@,
                    forall|j: int| 0 <= j < i ==> (#[trigger] acc0[j]).id < rv.id,
                decreases n - i,
            {
                proof {
                    assert(acc0[i as int] == out@[i as int]@);
                }
                i += 1;
            }
            if i < n && out[i].id == rec.id {
                proof {
                    lemma_insert_rec_dup(acc0, rv, i as int);
                }
                return None;
            }
            proof {
                lemma_insert_rec_at(acc0, rv, i as int);
                lemma_insert_rec_sorted(acc0, rv);
                lemma_skip_ws_len(v@.skip(pos as int));
                lemma_entry_shrinks(v@.skip(pw + 1));
            }
            out.insert(i, rec);
            proof {
                assert(out@.map_values(|r2: Record| r2@) =~= acc0.insert(i as int, rv));
            }
            p_rest(v, p2, out)
        },
    }
}

/// Whatever a sorted insertion produces was there before, or is the new
/// record.
proof fn lemma_insert_rec_contains(s: Seq<RecView>, r: RecView, x: RecView)
    requires
        insert_rec(s, r) matches Some(t) && t.contains(x),
    ensures
        x == r || s.contains(x),
    decreases s.len(),
{
    let t = insert_rec(s, r)->Some_0;
    if s.len() == 0 {
    } else if r.id < s[0].id {
        let k = choose|k: int| 0 <= k < t.len() && t[k] == x;
        if k > 0 {
            assert(s[k - 1] == x);
        }
    } else if r.id > s[0].id {
        let t2 = insert_rec(s.drop_first(), r)->Some_0;
        let k = choose|k: int| 0 <= k < t.len() && t[k] == x;
        if k == 0 {
            assert(s[0] == x);
        } else {
            assert(t2[k - 1] == x);
            lemma_insert_rec_contains(s.drop_first(), r, x);
            if s.drop_first().contains(x) {
                let j = choose|j: int| 0 <= j < s.drop_first().len() && s.drop_first()[j] == x;
                assert(s[j + 1] == x);
            }
        }
    }
}

/// A sorted insertion keeps the sequence sorted.
proof fn lemma_insert_rec_sorted(s: Seq<RecView>, r: RecView)
    requires
        sorted_by_id(s),
    ensures
        insert_rec(s, r) matches Some(t) ==> sorted_by_id(t),
    decreases s.len(),
{
    if s.len() == 0 {
    } else if r.id < s[0].id {
        let t = seq![r] + s;
        assert forall|i: int, j: int| 0 <= i < j < t.len() implies t[i].id < t[j].id by {
            if i > 0 {
                assert(s[i - 1].id < s[j - 1].id);
            } else if j > 1 {
                assert(s[0].id < s[j - 1].id);
            }
        }
    } else if r.id > s[0].id {
        let d = s.drop_first();
        assert forall|i: int, j: int| 0 <= i < j < d.len() implies d[i].id < d[j].id by {
            assert(s[i + 1].id < s[j + 1].id);
        }
        lemma_insert_rec_sorted(d, r);
        match insert_rec(d, r) {
            None => {},
            Some(t2) => {
                let t = seq![s[0]] + t2;
                assert forall|i: int, j: int| 0 <= i < j < t.len() implies t[i].id < t[j].id by {
                    if i > 0 {
                        assert(t2[i - 1].id < t2[j - 1].id);
                    } else {
                        let x = t2[j - 1];
                        assert(t2.contains(x));
                        lemma_insert_rec_contains(d, r, x);
                        if d.contains(x) {
                            let k = choose|k: int| 0 <= k < d.len() && d[k] == x;
                            assert(s[0].id < s[k + 1].id);
                        }
                    }
                }
            },
        }
    }
}

/// Folding entries into a sorted accumulator keeps it sorted.
pub proof fn lemma_rest_sorted(s: Seq<char>, acc: Seq<RecView>)
    requires
        sorted_by_id(acc),
    ensures
        parse_rest(s, acc) matches Some((rs, t)) ==> sorted_by_id(rs),
    decreases s.len(),
{
    if skip_ws(s).len() > 0 && skip_ws(s)[0] == ',' {
        match parse_entry(skip_ws(s).drop_first()) {
            None => {},
            Some((r, s2)) => {
                match insert_rec(acc, r) {
                    None => {},
                    Some(acc2) => {
                        lemma_insert_rec_sorted(acc, r);
                        lemma_skip_ws_len(s);
                        lemma_entry_shrinks(skip_ws(s).drop_first());
                        lemma_rest_sorted(s2, acc2);
                    },
                }
            },
        }
    }
}

/// A parsed store is well-formed: ids strictly ascend.
pub proof fn lemma_parse_sorted(s: Seq<char>)
    ensures
        parse_store(s) matches Some(rs) ==> sorted_by_id(rs),
{
    match expect_ws(s, seq!['{']) {
        None => {},
        Some(s1) => {
            if !(skip_ws(s1).len() > 0 && skip_ws(s1)[0] == '}') {
                match parse_entry(s1) {
                    None => {},
                    Some((r, s2)) => {
                        lemma_rest_sorted(s2, seq![r]);
                    },
                }
            }
        },
    }
}

/// Parses a whole database text into a store.
pub exec fn parse_store_text(text: &str) -> (r: Option<Store>)
    ensures
        match r {
            Some(st) => parse_store(text@) == Some(st@) && st.wf(),
            None => parse_store(text@) is None,
        },
{
    let v = crate::chars::chars_of_str(text);
    proof {
        assert(v@.skip(0) =~= v@);
    }
    let p1 = match eat_tok(&v, 0, '{') {
        None => return None,
        Some(p) => p,
    };
    let pw = eat_ws(&v, p1);
    if pw < v.len() && v[pw] == '}' {
        proof {
            assert(v@.skip(pw as int)[0] == v@[pw as int]);
            assert(v@.skip(pw as int).drop_first() =~= v@.skip(pw + 1));
        }
        let q = eat_ws(&v, pw + 1);
        if q == v.len() {
            proof {
                assert(v@.skip(q as int) =~= Seq::<char>::empty());
            }
            return Some(Store::new());
        } else {
            proof {
                assert(v@.skip(q as int).len() > 0);
            }
            return None;
        }
    }
    proof {
        if pw < v@.len() {
            assert(v@.skip(pw as int)[0] == v@[pw as int]);
        } else {
            assert(v@.skip(pw as int) =~= Seq::<char>::empty());
        }
    }
    let (first, p2) = match p_entry(&v, p1) {
        None => return None,
        Some(x) => x,
    };
    let mut recs: Vec<Record> = Vec::new();
    recs.push(first);
    proof {
        assert(recs@.map_values(|r2: Record| r2@) =~= seq![
            parse_entry(v@.skip(p1 as int))->Some_0.0,
        ]);
    }
    let p3 = match p_rest(&v, p2, &mut recs) {
        None => return None,
        Some(p) => p,
    };
    let p4 = match eat_tok(&v, p3, '}') {
        None => return None,
        Some(p) => p,
    };
    let p5 = eat_ws(&v, p4);
    if p5 != v.len() {
        proof {
            assert(v@.skip(p5 as int).len() > 0);
        }
        return None;
    }
    proof {
        assert(v@.skip(p5 as int) =~= Seq::<char>::empty());
        lemma_parse_sorted(v@);
    }
    Some(Store { recs })
}

// ---------------------------------------------------------------------------
// The parser inverts the serializer.
// ---------------------------------------------------------------------------
/// Consuming a literal off text that starts with it leaves the rest.
proof fn lemma_expect_concat(l: Seq<char>, t: Seq<char>)
    ensures
        expect(l + t, l) == Some(t),
{
    assert((l + t).take(l.len() as int) =~= l);
    assert((l + t).skip(l.len() as int) =~= t);
}

pub open spec fn pow10(k: nat) -> nat
    decreases k,
{
    if k == 0 {
        1nat
    } else {
        10 * pow10((k - 1) as nat)
    }
}

/// Reading the decimal rendering of `n` folds it back into the accumulator.
proof fn lemma_parse_digits_dec(n: u64, acc: u64, t: Seq<char>)
    requires
        acc * pow10(dec_of(n as nat).len()) + n <= u64::MAX,
    ensures
        parse_digits(dec_of(n as nat) + t, acc) == parse_digits(
            t,
            (acc * pow10(dec_of(n as nat).len()) + n) as u64,
        ),
    decreases n,
{
    lemma_dec_of_digits(n as nat);
    let s = dec_of(n as nat) + t;
    if n < 10 {
        assert(s[0] == digit_char_spec(n as nat));
        crate::chars::lemma_digit_inverse(n as nat);
        assert(pow10(0) == 1);
        assert(pow10(1) == 10 * pow10(0));
        assert(dec_of(n as nat).len() == 1);
        assert(s.drop_first() =~= t);
        assert(is_digit_char(s[0]));
        assert(digit_val_spec(s[0])->Some_0 == n as u8);
        assert(acc * pow10(1) == acc * 10);
        assert(acc * 10 + n <= u64::MAX);
        assert(!(acc > u64::MAX / 10 || (acc == u64::MAX / 10 && (n as u8) > (u64::MAX
            % 10) as u8)));
        assert(parse_digits(s, acc) == parse_digits(s.drop_first(), (10 * acc + n) as u64));
        assert(parse_digits(s, acc) == parse_digits(t, (acc * pow10(1) + n) as u64));
    } else {
        let m = n / 10;
        let d = n % 10;
        let k = dec_of(m as nat).len();
        assert(dec_of(n as nat) == dec_of(m as nat).push(digit_char_spec(d as nat)));
        assert(s =~= dec_of(m as nat) + (seq![digit_char_spec(d as nat)] + t));
        assert(dec_of(n as nat).len() == k + 1);
        assert(pow10(k + 1) == 10 * pow10(((k + 1) - 1) as nat));
        assert(pow10(k + 1) == 10 * pow10(k));
        assert(acc * pow10(k + 1) == 10 * (acc * pow10(k))) by (nonlinear_arith)
            requires
                pow10(k + 1) == 10 * pow10(k),
        ;
        let a2 = acc * pow10(k) + m;
        assert(10 * a2 + d == acc * pow10(k + 1) + n);
        assert(a2 <= u64::MAX);
        lemma_parse_digits_dec(m, acc, seq![digit_char_spec(d as nat)] + t);
        let mid = seq![digit_char_spec(d as nat)] + t;
        crate::chars::lemma_digit_inverse(d as nat);
        assert(mid[0] == digit_char_spec(d as nat));
        assert(mid.drop_first() =~= t);
        assert(parse_digits(mid, a2 as u64) == parse_digits(t, (10 * a2 + d) as u64));
    }
}

/// A rendered number followed by a non-digit parses back to itself.
proof fn lemma_dec_roundtrip(n: u64, t: Seq<char>)
    requires
        t.len() == 0 || !is_digit_char(t[0]),
    ensures
        parse_dec(dec_of(n as nat) + t) == Some((n, t)),
{
    lemma_dec_of_digits(n as nat);
    let s = dec_of(n as nat) + t;
    assert(s[0] == dec_of(n as nat)[0]);
    assert(pow10(dec_of(n as nat).len()) >= 1) by {
        lemma_pow10_pos(dec_of(n as nat).len());
    }
    assert(0 * pow10(dec_of(n as nat).len()) + n == n) by (nonlinear_arith);
    lemma_parse_digits_dec(n, 0, t);
}

proof fn lemma_pow10_pos(k: nat)
    ensures
        pow10(k) >= 1,
    decreases k,
{
    if k > 0 {
        lemma_pow10_pos((k - 1) as nat);
    }
}

/// An escaped string, its closing quote and any rest parse back to the
/// string and the rest.
proof fn lemma_string_roundtrip(s: Seq<char>, t: Seq<char>)
    ensures
        parse_string_body(esc_str(s) + (seq!['"'] + t)) == Some((s, t)),
    decreases s.len(),
{
    let input = esc_str(s) + (seq!['"'] + t);
    if s.len() == 0 {
        assert(input =~= seq!['"'] + t);
        assert(input[0] == '"');
        assert(input.drop_first() =~= t);
    } else {
        let c = s[0];
        let rest = s.drop_first();
        let inner = esc_str(rest) + (seq!['"'] + t);
        assert(input =~= esc_char(c) + inner);
        lemma_string_roundtrip(rest, t);
        if c == '"' || c == '\\' || c == '\n' || c == '\r' || c == '\t' || c == '\u{8}' || c
            == '\u{c}' {
            assert(esc_char(c).len() == 2);
            assert(input[0] == esc_char(c)[0]);
            assert(input[1] == esc_char(c)[1]);
            assert(input[0] == '\\');
            assert(unesc_char(input[1]) == Some(c));
            assert(input.skip(2) =~= inner);
            assert(seq![c] + rest =~= s);
        } else {
            assert(input[0] == c);
            assert(input.drop_first() =~= inner);
            assert(seq![c] + rest =~= s);
        }
    }
}

/// Consuming a literal off whitespace-free text that starts with it.
proof fn lemma_expect_ws_concat(l: Seq<char>, t: Seq<char>)
    requires
        l.len() > 0,
        !is_ws(l[0]),
    ensures
        expect_ws(l + t, l) == Some(t),
{
    assert((l + t)[0] == l[0]);
    assert(skip_ws(l + t) == l + t);
    lemma_expect_concat(l, t);
}

/// A digit is never whitespace.
proof fn lemma_digit_not_ws(c: char)
    requires
        is_digit_char(c),
    ensures
        !is_ws(c),
{
}

/// A rendered record object and any rest parse back to the record.
#[verifier::rlimit(100)]
proof fn lemma_record_roundtrip(r: RecView, t: Seq<char>)
    ensures
        parse_record(ser_record(r) + t) == Some((r, t)),
{
    let dec = dec_of(r.id as nat);
    let ek = esc_str(r.key);
    let ev = esc_str(r.value);
    let input = ser_record(r) + t;
    // after the value string: the closing brace, then the rest
    let s14 = seq!['}'] + t;
    let s13 = ev + (seq!['"'] + s14);
    let s12 = seq!['"'] + s13;
    let s11 = seq![':'] + s12;
    let s10 = tok_value() + s11;
    let s9 = seq![','] + s10;
    let s8 = ek + (seq!['"'] + s9);
    let s7 = seq!['"'] + s8;
    let s6 = seq![':'] + s7;
    let s5 = tok_key() + s6;
    let s4 = seq![','] + s5;
    let s3 = dec + s4;
    let s2 = seq![':'] + s3;
    let s1 = tok_id() + s2;
    assert(input =~= lit_id() + (dec + (lit_key() + (ek + (seq!['"'] + (lit_value() + (ev + (
    seq!['"'] + s14))))))));
    assert(input =~= seq!['{'] + s1);
    lemma_expect_ws_concat(seq!['{'], s1);
    lemma_expect_ws_concat(tok_id(), s2);
    lemma_expect_ws_concat(seq![':'], s3);
    lemma_dec_of_digits(r.id as nat);
    assert(s3[0] == dec[0]);
    lemma_digit_not_ws(s3[0]);
    assert(skip_ws(s3) == s3);
    assert(s4[0] == ',');
    lemma_dec_roundtrip(r.id, s4);
    lemma_expect_ws_concat(seq![','], s5);
    lemma_expect_ws_concat(tok_key(), s6);
    lemma_expect_ws_concat(seq![':'], s7);
    lemma_expect_ws_concat(seq!['"'], s8);
    lemma_string_roundtrip(r.key, s9);
    lemma_expect_ws_concat(seq![','], s10);
    lemma_expect_ws_concat(tok_value(), s11);
    lemma_expect_ws_concat(seq![':'], s12);
    lemma_expect_ws_concat(seq!['"'], s13);
    lemma_string_roundtrip(r.value, s14);
    lemma_expect_ws_concat(seq!['}'], t);
    assert(RecView { id: r.id, key: r.key, value: r.value } == r);
}

/// A rendered outer entry and any rest parse back to the record.
proof fn lemma_entry_roundtrip(r: RecView, t: Seq<char>)
    ensures
        parse_entry(ser_entry(r) + t) == Some((r, t)),
{
    let dec = dec_of(r.id as nat);
    let input = ser_entry(r) + t;
    let e3 = seq![':'] + (ser_record(r) + t);
    let e2 = seq!['"'] + e3;
    let e1 = dec + e2;
    assert(input =~= seq!['"'] + e1);
    lemma_expect_ws_concat(seq!['"'], e1);
    assert(e2[0] == '"');
    lemma_dec_roundtrip(r.id, e2);
    lemma_expect_concat(seq!['"'], e3);
    lemma_expect_ws_concat(seq![':'], ser_record(r) + t);
    lemma_record_roundtrip(r, t);
}

/// Appending a record past every present id is the sorted insertion.
proof fn lemma_insert_append(acc: Seq<RecView>, r: RecView)
    requires
        forall|i: int| 0 <= i < acc.len() ==> (#[trigger] acc[i]).id < r.id,
    ensures
        insert_rec(acc, r) == Some(acc.push(r)),
    decreases acc.len(),
{
    if acc.len() == 0 {
        assert(seq![r] =~= acc.push(r));
    } else {
        assert(acc[0].id < r.id);
        let d = acc.drop_first();
        assert forall|i: int| 0 <= i < d.len() implies (#[trigger] d[i]).id < r.id by {
            assert(acc[i + 1].id < r.id);
        }
        lemma_insert_append(d, r);
        assert(seq![acc[0]] + d.push(r) =~= acc.push(r));
    }
}

/// The rendered tail entries parse back, entry by entry: each appends to
/// the already-parsed prefix.
proof fn lemma_tail_roundtrip(s: Seq<RecView>, k: int, t: Seq<char>)
    requires
        sorted_by_id(s),
        0 <= k <= s.len(),
        t.len() > 0,
        t[0] != ',',
        !is_ws(t[0]),
    ensures
        parse_rest(ser_tail(s.skip(k)) + t, s.take(k)) == Some((s, t)),
    decreases s.len() - k,
{
    let suff = s.skip(k);
    let input = ser_tail(suff) + t;
    if k == s.len() {
        assert(suff =~= Seq::<RecView>::empty());
        assert(input =~= t);
        assert(skip_ws(t) == t);
        assert(s.take(k) =~= s);
    } else {
        let r = s[k];
        assert(suff[0] == r);
        assert(suff.drop_first() =~= s.skip(k + 1));
        assert(input =~= seq![','] + (ser_entry(r) + (ser_tail(s.skip(k + 1)) + t)));
        assert(input[0] == ',');
        assert(skip_ws(input) == input);
        assert(input.drop_first() =~= ser_entry(r) + (ser_tail(s.skip(k + 1)) + t));
        lemma_entry_roundtrip(r, ser_tail(s.skip(k + 1)) + t);
        assert forall|i: int| 0 <= i < s.take(k).len() implies (#[trigger] s.take(k)[i]).id
            < r.id by {
            assert(s[i].id < s[k].id);
        }
        lemma_insert_append(s.take(k), r);
        assert(s.take(k).push(r) =~= s.take(k + 1));
        lemma_tail_roundtrip(s, k + 1, t);
    }
}

/// Saving a well-formed store and parsing the text gives the store back:
/// the database text loses nothing.
pub proof fn lemma_store_roundtrip(s: Seq<RecView>)
    requires
        sorted_by_id(s),
    ensures
        parse_store(ser_store(s)) == Some(s),
{
    let input = ser_store(s);
    if s.len() == 0 {
        assert(input =~= seq!['{'] + seq!['}']);
        lemma_expect_ws_concat(seq!['{'], seq!['}']);
        assert((seq!['}'])[0] == '}');
        assert(skip_ws(seq!['}']) == seq!['}']);
        assert((seq!['}']).drop_first() =~= Seq::<char>::empty());
        assert(skip_ws(Seq::<char>::empty()).len() == 0);
    } else {
        let r = s[0];
        let rest = s.drop_first();
        let body = ser_entry(r) + (ser_tail(rest) + seq!['}']);
        assert(input =~= seq!['{'] + body);
        lemma_expect_ws_concat(seq!['{'], body);
        assert(body[0] == ser_entry(r)[0]);
        assert(ser_entry(r)[0] == '"');
        assert(skip_ws(body) == body);
        lemma_entry_roundtrip(r, ser_tail(rest) + seq!['}']);
        assert((seq!['}'])[0] == '}');
        assert(s.skip(1) =~= rest);
        assert(s.take(1) =~= seq![r]);
        lemma_tail_roundtrip(s, 1, seq!['}']);
        assert(seq!['}'] =~= seq!['}'] + Seq::<char>::empty());
        lemma_expect_ws_concat(seq!['}'], Seq::<char>::empty());
        assert(skip_ws(Seq::<char>::empty()).len() == 0);
        assert(seq![r] + rest =~= s);
    }
}

/// A user-supplied id: the whole text must be decimal digits naming a value
/// that fits in a `u64`; anything else is no id.
pub open spec fn parse_id(t: Seq<char>) -> Option<u64> {
    match parse_dec(t) {
        None => None,
        Some((v, rest)) => if rest.len() == 0 {
            Some(v)
        } else {
            None
        },
    }
}

/// Reads a user-supplied id. A text that is not a plain decimal `u64`
/// yields `None`, which callers treat as "not found".
pub exec fn parse_id_text(t: &str) -> (r: Option<u64>)
    ensures
        r == parse_id(t@),
{
    let v = crate::chars::chars_of_str(t);
    proof {
        assert(v@.skip(0) =~= v@);
    }
    match p_dec(&v, 0) {
        None => None,
        Some((n, p)) => {
            if p == v.len() {
                proof {
                    assert(v@.skip(p as int) =~= Seq::<char>::empty());
                }
                Some(n)
            } else {
                None
            }
        },
    }
}

/// Builds the store an invocation starts from: the parsed database text, or
/// an empty store when there is no text or it does not parse. Never fails.
pub exec fn load_db_text(text: Option<&str>) -> (st: Store)
    ensures
        st.wf(),
        match text {
            Some(t) => match parse_store(t@) {
                Some(rs) => st@ == rs,
                None => st@ =~= Seq::<RecView>::empty(),
            },
            None => st@ =~= Seq::<RecView>::empty(),
        },
{
    match text {
        None => Store::new(),
        Some(t) => match parse_store_text(t) {
            Some(st) => st,
            None => Store::new(),
        },
    }
}

} // verus!
