//! The wire codec: the two outbound frame shapes (open-session, generate) as
//! specification functions over character sequences, executable encoders that
//! produce exactly those frames, and a decoder for generate frames that is
//! proved to invert the encoder.
//!
//! Every message is one frame of UTF-8 text holding a JSON object with a
//! fixed `type` discriminant. A field that was never set is omitted from the
//! frame entirely, never written as `null`.

use vstd::prelude::*;
use crate::model::Model;
use crate::params::Decimal;
use crate::params::GenerateParams;
use crate::params::ParamsView;
use crate::params::empty_params;
use crate::text::{
    dec_digits, digit_char, digit_val, digit_run_end, digit_to_char, char_to_digit, emit_u32,
    escape, escape_into, is_digit, match_at, match_lit, parse_string_body_at,
    parse_jstring_body, parse_u32_at, parse_u32, push_char, lemma_match_prefix,
    lemma_match_excludes, lemma_parse_u32_complete, lemma_parse_escape, lemma_digit_run_end,
    lemma_digit_run_end_geq, lemma_dec_digits_val, lemma_digit_roundtrip, ws_end, skip_ws,
    digit_run_scan, lemma_suffix_shift, lemma_parse_string_body_bounds,
};

verus! {

// ---------------------------------------------------------------------------
// Frame text, by field
// ---------------------------------------------------------------------------

/// The text of a JSON boolean.
pub open spec fn bool_text(b: bool) -> Seq<char> {
    if b {
        "true"@
    } else {
        "false"@
    }
}

/// The fraction digits of a decimal number, trailing zeros trimmed; used only
/// when some fraction digit is non-zero.
pub open spec fn dec_frac(d: Decimal) -> Seq<char> {
    if d.thousandths != 0 {
        seq![
            digit_char(d.tenths as int),
            digit_char(d.hundredths as int),
            digit_char(d.thousandths as int),
        ]
    } else if d.hundredths != 0 {
        seq![digit_char(d.tenths as int), digit_char(d.hundredths as int)]
    } else {
        seq![digit_char(d.tenths as int)]
    }
}

/// The JSON number text of a decimal: the whole part, then the shortest
/// fraction, with no fraction at all for a whole number.
pub open spec fn dec_text(d: Decimal) -> Seq<char> {
    if d.tenths == 0 && d.hundredths == 0 && d.thousandths == 0 {
        dec_digits(d.whole as nat)
    } else {
        dec_digits(d.whole as nat) + seq!['.'] + dec_frac(d)
    }
}

/// The text that introduces optional field `k` of a generate frame, comma and
/// key included; string-valued fields also carry their opening quote.
pub open spec fn key_prefix(k: int) -> Seq<char> {
    if k == 0 {
        ",\"model\":\""@
    } else if k == 1 {
        ",\"max_length\":"@
    } else if k == 2 {
        ",\"inputs\":\""@
    } else if k == 3 {
        ",\"stop_sequence\":\""@
    } else if k == 4 {
        ",\"do_sample\":"@
    } else if k == 5 {
        ",\"temperature\":"@
    } else if k == 6 {
        ",\"top_k\":"@
    } else if k == 7 {
        ",\"top_p\":"@
    } else {
        ",\"max_new_tokens\":"@
    }
}

/// The text of an optional number field: empty when unset.
pub open spec fn opt_u32_text(pre: Seq<char>, v: Option<u32>) -> Seq<char> {
    match v {
        Some(n) => pre + dec_digits(n as nat),
        None => Seq::empty(),
    }
}

/// The text of an optional string field, closing quote included: empty when
/// unset.
pub open spec fn opt_str_text(pre: Seq<char>, v: Option<Seq<char>>) -> Seq<char> {
    match v {
        Some(s) => pre + escape(s) + seq!['"'],
        None => Seq::empty(),
    }
}

/// The text of an optional boolean field: empty when unset.
pub open spec fn opt_bool_text(pre: Seq<char>, v: Option<bool>) -> Seq<char> {
    match v {
        Some(b) => pre + bool_text(b),
        None => Seq::empty(),
    }
}

/// The text of an optional decimal field: empty when unset.
pub open spec fn opt_dec_text(pre: Seq<char>, v: Option<Decimal>) -> Seq<char> {
    match v {
        Some(d) => pre + dec_text(d),
        None => Seq::empty(),
    }
}

/// The wire name of an optional model.
pub open spec fn opt_wire_name(v: Option<Model>) -> Option<Seq<char>> {
    match v {
        Some(m) => Some(m.spec_wire_name()),
        None => None,
    }
}

/// The text contributed by optional field `k`: empty when the field is not
/// set, otherwise its key prefix followed by its encoded value.
pub open spec fn part(v: ParamsView, k: int) -> Seq<char> {
    if k == 0 {
        opt_str_text(key_prefix(0), opt_wire_name(v.model))
    } else if k == 1 {
        opt_u32_text(key_prefix(1), v.max_length)
    } else if k == 2 {
        opt_str_text(key_prefix(2), v.inputs)
    } else if k == 3 {
        opt_str_text(key_prefix(3), v.stop_sequence)
    } else if k == 4 {
        opt_bool_text(key_prefix(4), v.do_sample)
    } else if k == 5 {
        opt_dec_text(key_prefix(5), v.temperature)
    } else if k == 6 {
        opt_u32_text(key_prefix(6), v.top_k)
    } else if k == 7 {
        opt_dec_text(key_prefix(7), v.top_p)
    } else {
        opt_u32_text(key_prefix(8), v.max_new_tokens)
    }
}

/// The frame text from optional field `k` on: the remaining fields, then the
/// closing brace.
pub open spec fn tail_from(v: ParamsView, k: int) -> Seq<char>
    decreases 9 - k
        when 0 <= k <= 9
{
    if k >= 9 {
        seq!['}']
    } else {
        part(v, k) + tail_from(v, k + 1)
    }
}

/// The complete generate frame for a parameter set: the `type` discriminant,
/// then every field that is set, in the fixed field order, then the closing
/// brace.
pub open spec fn spec_generate_frame(v: ParamsView) -> Seq<char> {
    "{\"type\":\"generate\""@ + part(v, 0) + part(v, 1) + part(v, 2) + part(v, 3) + part(v, 4)
        + part(v, 5) + part(v, 6) + part(v, 7) + part(v, 8) + seq!['}']
}

/// Concatenation of character sequences is associative.
proof fn lemma_assoc(a: Seq<char>, b: Seq<char>, c: Seq<char>)
    ensures
        a + b + c == a + (b + c),
{
    assert(a + b + c =~= a + (b + c));
}

/// The generate frame is the `type` discriminant followed by the field tail.
pub proof fn lemma_frame_tail(v: ParamsView)
    ensures
        spec_generate_frame(v) == "{\"type\":\"generate\""@ + tail_from(v, 0),
{
    let p = "{\"type\":\"generate\""@;
    let a0 = p + part(v, 0);
    let a1 = a0 + part(v, 1);
    let a2 = a1 + part(v, 2);
    let a3 = a2 + part(v, 3);
    let a4 = a3 + part(v, 4);
    let a5 = a4 + part(v, 5);
    let a6 = a5 + part(v, 6);
    let a7 = a6 + part(v, 7);
    let a8 = a7 + part(v, 8);
    assert(tail_from(v, 9) == seq!['}']);
    lemma_assoc(p, part(v, 0), tail_from(v, 1));
    assert(p + tail_from(v, 0) == a0 + tail_from(v, 1));
    lemma_assoc(a0, part(v, 1), tail_from(v, 2));
    assert(a0 + tail_from(v, 1) == a1 + tail_from(v, 2));
    lemma_assoc(a1, part(v, 2), tail_from(v, 3));
    assert(a1 + tail_from(v, 2) == a2 + tail_from(v, 3));
    lemma_assoc(a2, part(v, 3), tail_from(v, 4));
    assert(a2 + tail_from(v, 3) == a3 + tail_from(v, 4));
    lemma_assoc(a3, part(v, 4), tail_from(v, 5));
    assert(a3 + tail_from(v, 4) == a4 + tail_from(v, 5));
    lemma_assoc(a4, part(v, 5), tail_from(v, 6));
    assert(a4 + tail_from(v, 5) == a5 + tail_from(v, 6));
    lemma_assoc(a5, part(v, 6), tail_from(v, 7));
    assert(a5 + tail_from(v, 6) == a6 + tail_from(v, 7));
    lemma_assoc(a6, part(v, 7), tail_from(v, 8));
    assert(a6 + tail_from(v, 7) == a7 + tail_from(v, 8));
    lemma_assoc(a7, part(v, 8), tail_from(v, 9));
    assert(a7 + tail_from(v, 8) == a8 + tail_from(v, 9));
    assert(spec_generate_frame(v) == a8 + seq!['}']);
}

/// The complete open-session frame: the `type` discriminant, the required
/// maximum length, and the model when one is given.
pub open spec fn spec_open_frame(max_length: u32, model: Option<Model>) -> Seq<char> {
    "{\"type\":\"open_inference_session\",\"max_length\":"@ + dec_digits(max_length as nat) + (
    match model {
        Some(m) => ",\"model\":\""@ + escape(m.spec_wire_name()) + seq!['"'],
        None => Seq::empty(),
    }) + seq!['}']
}

// ---------------------------------------------------------------------------
// Encoders
// ---------------------------------------------------------------------------

/// Appends the JSON number text of a decimal.
fn emit_decimal(d: Decimal, out: &mut String)
    requires
        d.wf(),
    ensures
        final(out)@ == old(out)@ + dec_text(d),
{
    emit_u32(d.whole, out);
    if d.tenths != 0 || d.hundredths != 0 || d.thousandths != 0 {
        push_char(out, '.');
        let c1 = digit_to_char(d.tenths as u32);
        push_char(out, c1);
        if d.hundredths != 0 || d.thousandths != 0 {
            let c2 = digit_to_char(d.hundredths as u32);
            push_char(out, c2);
            if d.thousandths != 0 {
                let c3 = digit_to_char(d.thousandths as u32);
                push_char(out, c3);
            }
        }
        assert(final(out)@ =~= old(out)@ + dec_text(d));
    }
}

/// Appends a quoted, escaped JSON string.
fn emit_jstring(s: &str, out: &mut String)
    ensures
        final(out)@ == old(out)@ + escape(s@) + seq!['"'],
{
    escape_into(s, out);
    push_char(out, '"');
    assert(final(out)@ =~= old(out)@ + escape(s@) + seq!['"']);
}

/// Appends an optional number field.
fn emit_opt_u32(pre: &str, v: Option<u32>, out: &mut String)
    ensures
        final(out)@ == old(out)@ + opt_u32_text(pre@, v),
{
    if let Some(n) = v {
        out.append(pre);
        emit_u32(n, out);
        assert(final(out)@ =~= old(out)@ + opt_u32_text(pre@, v));
    } else {
        assert(final(out)@ =~= old(out)@ + opt_u32_text(pre@, v));
    }
}

/// Appends an optional string field.
fn emit_opt_str(pre: &str, v: &Option<String>, out: &mut String)
    ensures
        final(out)@ == old(out)@ + opt_str_text(pre@, v.deep_view()),
{
    if let Some(x) = v {
        out.append(pre);
        emit_jstring(x.as_str(), out);
        assert(final(out)@ =~= old(out)@ + opt_str_text(pre@, v.deep_view()));
    } else {
        assert(final(out)@ =~= old(out)@ + opt_str_text(pre@, v.deep_view()));
    }
}

/// Appends an optional boolean field.
fn emit_opt_bool(pre: &str, v: Option<bool>, out: &mut String)
    ensures
        final(out)@ == old(out)@ + opt_bool_text(pre@, v),
{
    if let Some(b) = v {
        out.append(pre);
        if b {
            out.append("true");
        } else {
            out.append("false");
        }
        assert(final(out)@ =~= old(out)@ + opt_bool_text(pre@, v));
    } else {
        assert(final(out)@ =~= old(out)@ + opt_bool_text(pre@, v));
    }
}

/// Appends an optional decimal field.
fn emit_opt_dec(pre: &str, v: Option<Decimal>, out: &mut String)
    requires
        v matches Some(d) ==> d.wf(),
    ensures
        final(out)@ == old(out)@ + opt_dec_text(pre@, v),
{
    if let Some(d) = v {
        out.append(pre);
        emit_decimal(d, out);
        assert(final(out)@ =~= old(out)@ + opt_dec_text(pre@, v));
    } else {
        assert(final(out)@ =~= old(out)@ + opt_dec_text(pre@, v));
    }
}

/// Appends an optional model field.
fn emit_opt_model(pre: &str, v: &Option<Model>, out: &mut String)
    ensures
        final(out)@ == old(out)@ + opt_str_text(pre@, opt_wire_name(*v)),
{
    if let Some(m) = v {
        out.append(pre);
        emit_jstring(m.wire_name(), out);
        assert(final(out)@ =~= old(out)@ + opt_str_text(pre@, opt_wire_name(*v)));
    } else {
        assert(final(out)@ =~= old(out)@ + opt_str_text(pre@, opt_wire_name(*v)));
    }
}

/// Encodes a generate request: exactly the frame [`spec_generate_frame`]
/// describes for this parameter set.
pub fn encode_generate(p: &GenerateParams) -> (s: String)
    requires
        p@.valid(),
    ensures
        s@ == spec_generate_frame(p@),
{
    let ghost v = p@;
    let mut out = String::from_str("{\"type\":\"generate\"");
    emit_opt_model(",\"model\":\"", &p.model, &mut out);
    emit_opt_u32(",\"max_length\":", p.max_length, &mut out);
    emit_opt_str(",\"inputs\":\"", &p.inputs, &mut out);
    emit_opt_str(",\"stop_sequence\":\"", &p.stop_sequence, &mut out);
    emit_opt_bool(",\"do_sample\":", p.do_sample, &mut out);
    emit_opt_dec(",\"temperature\":", p.temperature, &mut out);
    emit_opt_u32(",\"top_k\":", p.top_k, &mut out);
    emit_opt_dec(",\"top_p\":", p.top_p, &mut out);
    emit_opt_u32(",\"max_new_tokens\":", p.max_new_tokens, &mut out);
    push_char(&mut out, '}');
    proof {
        assert(part(v, 0) == opt_str_text(",\"model\":\""@, opt_wire_name(v.model)));
        assert(part(v, 1) == opt_u32_text(",\"max_length\":"@, v.max_length));
        assert(part(v, 2) == opt_str_text(",\"inputs\":\""@, v.inputs));
        assert(part(v, 3) == opt_str_text(",\"stop_sequence\":\""@, v.stop_sequence));
        assert(part(v, 4) == opt_bool_text(",\"do_sample\":"@, v.do_sample));
        assert(part(v, 5) == opt_dec_text(",\"temperature\":"@, v.temperature));
        assert(part(v, 6) == opt_u32_text(",\"top_k\":"@, v.top_k));
        assert(part(v, 7) == opt_dec_text(",\"top_p\":"@, v.top_p));
        assert(part(v, 8) == opt_u32_text(",\"max_new_tokens\":"@, v.max_new_tokens));
        assert(out@ =~= spec_generate_frame(v));
    }
    out
}

// ---------------------------------------------------------------------------
// Decoding generate frames
// ---------------------------------------------------------------------------

/// Parses a decimal number at `i`: the whole part, then optionally a dot and
/// one to three fraction digits, the last one non-zero (the shortest form,
/// exactly as [`dec_text`] writes it).
pub open spec fn parse_decimal_at(s: Seq<char>, i: int) -> Option<(Decimal, int)> {
    match parse_u32_at(s, i) {
        None => None,
        Some((w, j)) => if j < s.len() && s[j] == '.' {
            let e = digit_run_end(s, j + 1);
            if e == j + 2 && digit_val(s[j + 1]) != 0 {
                Some(
                    (
                        Decimal {
                            whole: w as u32,
                            tenths: digit_val(s[j + 1]) as u8,
                            hundredths: 0,
                            thousandths: 0,
                        },
                        e,
                    ),
                )
            } else if e == j + 3 && digit_val(s[j + 2]) != 0 {
                Some(
                    (
                        Decimal {
                            whole: w as u32,
                            tenths: digit_val(s[j + 1]) as u8,
                            hundredths: digit_val(s[j + 2]) as u8,
                            thousandths: 0,
                        },
                        e,
                    ),
                )
            } else if e == j + 4 && digit_val(s[j + 3]) != 0 {
                Some(
                    (
                        Decimal {
                            whole: w as u32,
                            tenths: digit_val(s[j + 1]) as u8,
                            hundredths: digit_val(s[j + 2]) as u8,
                            thousandths: digit_val(s[j + 3]) as u8,
                        },
                        e,
                    ),
                )
            } else {
                None
            }
        } else {
            Some((Decimal { whole: w as u32, tenths: 0, hundredths: 0, thousandths: 0 }, j))
        },
    }
}

/// Executable form of [`parse_decimal_at`].
fn parse_decimal(s: &str, i: usize) -> (r: Option<(Decimal, usize)>)
    requires
        i <= s@.len(),
    ensures
        match parse_decimal_at(s@, i as int) {
            Some(p) => r matches Some(q) && q.0 == p.0 && q.1 as int == p.1 && p.1 <= s@.len(),
            None => r is None,
        },
{
    proof {
        lemma_digit_run_end(s@, i as int);
    }
    match parse_u32(s, i) {
        None => None,
        Some((w, j)) => {
            if j < s.unicode_len() && s.get_char(j) == '.' {
                let e = digit_run_scan(s, j + 1);
                proof {
                    lemma_digit_run_end(s@, j as int + 1);
                }
                let rl = e - (j + 1);
                if rl == 1 {
                    let d1 = char_to_digit(s.get_char(j + 1));
                    if d1 != 0 {
                        Some(
                            (
                                Decimal {
                                    whole: w,
                                    tenths: d1 as u8,
                                    hundredths: 0,
                                    thousandths: 0,
                                },
                                e,
                            ),
                        )
                    } else {
                        None
                    }
                } else if rl == 2 {
                    let d1 = char_to_digit(s.get_char(j + 1));
                    let d2 = char_to_digit(s.get_char(j + 2));
                    if d2 != 0 {
                        Some(
                            (
                                Decimal {
                                    whole: w,
                                    tenths: d1 as u8,
                                    hundredths: d2 as u8,
                                    thousandths: 0,
                                },
                                e,
                            ),
                        )
                    } else {
                        None
                    }
                } else if rl == 3 {
                    let d1 = char_to_digit(s.get_char(j + 1));
                    let d2 = char_to_digit(s.get_char(j + 2));
                    let d3 = char_to_digit(s.get_char(j + 3));
                    if d3 != 0 {
                        Some(
                            (
                                Decimal {
                                    whole: w,
                                    tenths: d1 as u8,
                                    hundredths: d2 as u8,
                                    thousandths: d3 as u8,
                                },
                                e,
                            ),
                        )
                    } else {
                        None
                    }
                } else {
                    None
                }
            } else {
                Some((Decimal { whole: w, tenths: 0, hundredths: 0, thousandths: 0 }, j))
            }
        },
    }
}

/// The parameter view with every field before `k` cleared.
pub open spec fn mask(v: ParamsView, k: int) -> ParamsView {
    ParamsView {
        model: if k <= 0 {
            v.model
        } else {
            None
        },
        max_length: if k <= 1 {
            v.max_length
        } else {
            None
        },
        inputs: if k <= 2 {
            v.inputs
        } else {
            None
        },
        stop_sequence: if k <= 3 {
            v.stop_sequence
        } else {
            None
        },
        do_sample: if k <= 4 {
            v.do_sample
        } else {
            None
        },
        temperature: if k <= 5 {
            v.temperature
        } else {
            None
        },
        top_k: if k <= 6 {
            v.top_k
        } else {
            None
        },
        top_p: if k <= 7 {
            v.top_p
        } else {
            None
        },
        max_new_tokens: if k <= 8 {
            v.max_new_tokens
        } else {
            None
        },
    }
}

/// Parses the fields of a generate frame from slot `k` on, ending at the
/// closing brace, which must end the frame. Fields may only appear in the
/// canonical field order.
pub open spec fn parse_fields(s: Seq<char>, i: int, k: int) -> Option<(ParamsView, int)>
    decreases 9 - k
        when 0 <= k <= 9
{
    if i < s.len() && s[i] == '}' {
        if i + 1 == s.len() {
            Some((empty_params(), i + 1))
        } else {
            None
        }
    } else if k >= 9 {
        None
    } else if match_at(s, i, key_prefix(k)) {
        let j0 = i + key_prefix(k).len();
        if k == 0 {
            match parse_string_body_at(s, j0) {
                None => None,
                Some((wname, j)) => match crate::model::wire_to_model(wname) {
                    None => None,
                    Some(m) => match parse_fields(s, j, 1) {
                        None => None,
                        Some((q, e)) => Some((ParamsView { model: Some(m), ..q }, e)),
                    },
                },
            }
        } else if k == 1 {
            match parse_u32_at(s, j0) {
                None => None,
                Some((n, j)) => match parse_fields(s, j, 2) {
                    None => None,
                    Some((q, e)) => Some((ParamsView { max_length: Some(n as u32), ..q }, e)),
                },
            }
        } else if k == 2 {
            match parse_string_body_at(s, j0) {
                None => None,
                Some((x, j)) => match parse_fields(s, j, 3) {
                    None => None,
                    Some((q, e)) => Some((ParamsView { inputs: Some(x), ..q }, e)),
                },
            }
        } else if k == 3 {
            match parse_string_body_at(s, j0) {
                None => None,
                Some((x, j)) => match parse_fields(s, j, 4) {
                    None => None,
                    Some((q, e)) => Some((ParamsView { stop_sequence: Some(x), ..q }, e)),
                },
            }
        } else if k == 4 {
            match parse_bool_at(s, j0) {
                None => None,
                Some((b, j)) => match parse_fields(s, j, 5) {
                    None => None,
                    Some((q, e)) => Some((ParamsView { do_sample: Some(b), ..q }, e)),
                },
            }
        } else if k == 5 {
            match parse_decimal_at(s, j0) {
                None => None,
                Some((d, j)) => match parse_fields(s, j, 6) {
                    None => None,
                    Some((q, e)) => Some((ParamsView { temperature: Some(d), ..q }, e)),
                },
            }
        } else if k == 6 {
            match parse_u32_at(s, j0) {
                None => None,
                Some((n, j)) => match parse_fields(s, j, 7) {
                    None => None,
                    Some((q, e)) => Some((ParamsView { top_k: Some(n as u32), ..q }, e)),
                },
            }
        } else if k == 7 {
            match parse_decimal_at(s, j0) {
                None => None,
                Some((d, j)) => match parse_fields(s, j, 8) {
                    None => None,
                    Some((q, e)) => Some((ParamsView { top_p: Some(d), ..q }, e)),
                },
            }
        } else {
            match parse_u32_at(s, j0) {
                None => None,
                Some((n, j)) => match parse_fields(s, j, 9) {
                    None => None,
                    Some((q, e)) => Some((ParamsView { max_new_tokens: Some(n as u32), ..q }, e)),
                },
            }
        }
    } else {
        parse_fields(s, i, k + 1)
    }
}

// ---------------------------------------------------------------------------
// The decoder inverts the encoder
// ---------------------------------------------------------------------------

/// An index at which the key prefixes of two distinct fields differ.
pub open spec fn key_diff(k: int, m: int) -> int {
    if (k == 1 && m == 0) || (k == 0 && m == 1) || (k == 6 && m == 5) || (k == 5 && m == 6) || (k
        == 7 && m == 5) || (k == 5 && m == 7) || (k == 8 && m == 0) || (k == 0 && m == 8) {
        3
    } else if (k == 7 && m == 6) || (k == 6 && m == 7) || (k == 8 && m == 1) || (k == 1 && m
        == 8) {
        6
    } else {
        2
    }
}

/// Reveals the nine key-prefix literals.
proof fn reveal_key_prefixes()
    ensures
        forall|k: int| 0 <= k < 9 ==> (#[trigger] key_prefix(k)).len() >= 1 && key_prefix(k)[0]
            == ',',
{
    reveal_strlit(",\"model\":\"");
    reveal_strlit(",\"max_length\":");
    reveal_strlit(",\"inputs\":\"");
    reveal_strlit(",\"stop_sequence\":\"");
    reveal_strlit(",\"do_sample\":");
    reveal_strlit(",\"temperature\":");
    reveal_strlit(",\"top_k\":");
    reveal_strlit(",\"top_p\":");
    reveal_strlit(",\"max_new_tokens\":");
    assert forall|k: int| 0 <= k < 9 implies (#[trigger] key_prefix(k)).len() >= 1 && key_prefix(
        k,
    )[0] == ',' by {
        if k == 0 {
            assert(key_prefix(0).len() == 10 && key_prefix(0)[0] == ',');
        } else if k == 1 {
            assert(key_prefix(1).len() == 14 && key_prefix(1)[0] == ',');
        } else if k == 2 {
            assert(key_prefix(2).len() == 11 && key_prefix(2)[0] == ',');
        } else if k == 3 {
            assert(key_prefix(3).len() == 18 && key_prefix(3)[0] == ',');
        } else if k == 4 {
            assert(key_prefix(4).len() == 13 && key_prefix(4)[0] == ',');
        } else if k == 5 {
            assert(key_prefix(5).len() == 15 && key_prefix(5)[0] == ',');
        } else if k == 6 {
            assert(key_prefix(6).len() == 9 && key_prefix(6)[0] == ',');
        } else if k == 7 {
            assert(key_prefix(7).len() == 9 && key_prefix(7)[0] == ',');
        } else {
            assert(key_prefix(8).len() == 18 && key_prefix(8)[0] == ',');
        }
    }
}

/// Distinct fields' key prefixes differ at [`key_diff`], so where one field's
/// text begins, no other field's prefix matches.
proof fn lemma_prefix_mismatch(s: Seq<char>, i: int, k: int, m: int, rest: Seq<char>)
    requires
        0 <= k < 9,
        0 <= m < 9,
        m != k,
        0 <= i <= s.len(),
        s.subrange(i, s.len() as int) == key_prefix(k) + rest,
    ensures
        !match_at(s, i, key_prefix(m)),
{
    reveal_strlit(",\"model\":\"");
    reveal_strlit(",\"max_length\":");
    reveal_strlit(",\"inputs\":\"");
    reveal_strlit(",\"stop_sequence\":\"");
    reveal_strlit(",\"do_sample\":");
    reveal_strlit(",\"temperature\":");
    reveal_strlit(",\"top_k\":");
    reveal_strlit(",\"top_p\":");
    reveal_strlit(",\"max_new_tokens\":");
    lemma_match_prefix(s, i, key_prefix(k), rest);
    let d = key_diff(k, m);
    assert(0 <= d < key_prefix(k).len() && d < key_prefix(m).len() && key_prefix(k)[d]
        != key_prefix(m)[d]);
    lemma_match_excludes(s, i, key_prefix(k), key_prefix(m), d);
}

/// True when optional field `k` is set.
pub open spec fn field_set(v: ParamsView, k: int) -> bool {
    if k == 0 {
        v.model is Some
    } else if k == 1 {
        v.max_length is Some
    } else if k == 2 {
        v.inputs is Some
    } else if k == 3 {
        v.stop_sequence is Some
    } else if k == 4 {
        v.do_sample is Some
    } else if k == 5 {
        v.temperature is Some
    } else if k == 6 {
        v.top_k is Some
    } else if k == 7 {
        v.top_p is Some
    } else {
        v.max_new_tokens is Some
    }
}

/// A field's text is empty exactly when the field is unset, and a non-empty
/// field text begins with the field's key prefix.
proof fn lemma_part_shape(v: ParamsView, k: int)
    requires
        0 <= k < 9,
    ensures
        part(v, k).len() == 0 <==> !field_set(v, k),
        part(v, k).len() == 0 || part(v, k) == key_prefix(k) + part(v, k).subrange(
            key_prefix(k).len() as int,
            part(v, k).len() as int,
        ),
{
    reveal_key_prefixes();
    if part(v, k).len() != 0 {
        let p = part(v, k);
        let n = key_prefix(k).len() as int;
        assert(p.len() >= n) by {
            if k == 0 {
                assert(p == opt_str_text(key_prefix(0), opt_wire_name(v.model)));
            }
        }
        assert(p =~= key_prefix(k) + p.subrange(n, p.len() as int)) by {
            if k == 0 {
                assert(p == opt_str_text(key_prefix(0), opt_wire_name(v.model)));
            }
        }
    }
}

/// Beyond the last field, the frame tail is only the closing brace and no
/// field remains set.
proof fn lemma_tail_head(v: ParamsView, k: int)
    requires
        0 <= k <= 9,
    ensures
        tail_from(v, k).len() >= 1,
        tail_from(v, k)[0] == ',' || tail_from(v, k)[0] == '}',
    decreases 9 - k,
{
    reveal_key_prefixes();
    if k < 9 {
        lemma_part_shape(v, k);
        if part(v, k).len() == 0 {
            assert(tail_from(v, k) =~= tail_from(v, k + 1));
            lemma_tail_head(v, k + 1);
        } else {
            assert(tail_from(v, k)[0] == part(v, k)[0]);
            assert(part(v, k)[0] == key_prefix(k)[0]);
        }
    }
}

/// A frame tail that begins with the closing brace is only that brace, and
/// every field from `k` on is unset.
proof fn lemma_tail_all_none(v: ParamsView, k: int)
    requires
        0 <= k <= 9,
        tail_from(v, k).len() >= 1,
        tail_from(v, k)[0] == '}',
    ensures
        tail_from(v, k) == seq!['}'],
        mask(v, k) == empty_params(),
    decreases 9 - k,
{
    reveal_key_prefixes();
    if k >= 9 {
        assert(mask(v, 9) == empty_params());
    } else {
        lemma_part_shape(v, k);
        if part(v, k).len() == 0 {
            assert(tail_from(v, k) =~= tail_from(v, k + 1));
            lemma_tail_all_none(v, k + 1);
            assert(mask(v, k) == mask(v, k + 1));
        } else {
            assert(tail_from(v, k)[0] == part(v, k)[0]);
            assert(part(v, k)[0] == key_prefix(k)[0]);
            assert(false);
        }
    }
}

/// Where the frame tail from slot `k` begins, no earlier field's key prefix
/// matches.
proof fn lemma_tail_no_match(s: Seq<char>, i: int, v: ParamsView, k: int, m: int)
    requires
        0 <= m < 9,
        m < k <= 9,
        0 <= i <= s.len(),
        s.subrange(i, s.len() as int) == tail_from(v, k),
    ensures
        !match_at(s, i, key_prefix(m)),
    decreases 9 - k,
{
    reveal_key_prefixes();
    assert(s.subrange(i, s.len() as int).len() == s.len() - i);
    if k >= 9 {
        assert(s.subrange(i, s.len() as int)[0] == s[i]);
        assert(s[i] == '}');
        if match_at(s, i, key_prefix(m)) {
            assert(s.subrange(i, i + key_prefix(m).len())[0] == s[i]);
            assert(false);
        }
    } else {
        lemma_part_shape(v, k);
        if part(v, k).len() == 0 {
            assert(tail_from(v, k) =~= tail_from(v, k + 1));
            lemma_tail_no_match(s, i, v, k + 1, m);
        } else {
            let p = part(v, k);
            let rest = p.subrange(key_prefix(k).len() as int, p.len() as int);
            assert(tail_from(v, k) =~= key_prefix(k) + (rest + tail_from(v, k + 1)));
            lemma_prefix_mismatch(s, i, k, m, rest + tail_from(v, k + 1));
        }
    }
}

/// A canonical boolean text parses back to its value.
proof fn lemma_parse_bool_complete(s: Seq<char>, i: int, b: bool, t: Seq<char>)
    requires
        0 <= i <= s.len(),
        s.subrange(i, s.len() as int) == bool_text(b) + t,
    ensures
        parse_bool_at(s, i) == Some((b, i + bool_text(b).len())),
{
    reveal_strlit("true");
    reveal_strlit("false");
    lemma_match_prefix(s, i, bool_text(b), t);
    if !b {
        lemma_match_excludes(s, i, "false"@, "true"@, 0);
    }
}

/// A canonical decimal text parses back to its value: if the text at `i` is
/// `dec_text(d)` followed by something that is neither a digit nor a dot, the
/// parser yields exactly `d`.
proof fn lemma_parse_decimal_complete(s: Seq<char>, i: int, d: Decimal, t: Seq<char>)
    requires
        0 <= i <= s.len(),
        d.wf(),
        s.subrange(i, s.len() as int) == dec_text(d) + t,
        t.len() >= 1,
        !is_digit(t[0]),
        t[0] != '.',
    ensures
        parse_decimal_at(s, i) == Some((d, i + dec_text(d).len())),
{
    assert(s.subrange(i, s.len() as int).len() == s.len() - i);
    lemma_dec_digits_val(d.whole as nat);
    let dd = dec_digits(d.whole as nat);
    if d.tenths == 0 && d.hundredths == 0 && d.thousandths == 0 {
        lemma_parse_u32_complete(s, i, d.whole as nat, t);
        let j = i + dd.len();
        assert(s.subrange(i, s.len() as int)[j - i] == s[j]);
        assert((dec_text(d) + t)[j - i] == t[0]);
        assert(s[j] == t[0]);
    } else {
        let fr = dec_frac(d);
        let t1 = seq!['.'] + fr + t;
        assert(s.subrange(i, s.len() as int) =~= dd + t1);
        lemma_parse_u32_complete(s, i, d.whole as nat, t1);
        let j = i + dd.len();
        lemma_suffix_shift(s, i, dd, t1);
        assert(s.subrange(j, s.len() as int) =~= seq!['.'] + (fr + t));
        lemma_suffix_shift(s, j, seq!['.'], fr + t);
        assert(s.subrange(j, s.len() as int)[0] == s[j]);
        assert(s[j] == '.');
        let rl = fr.len() as int;
        lemma_digit_roundtrip(d.tenths as int);
        lemma_digit_roundtrip(d.hundredths as int);
        lemma_digit_roundtrip(d.thousandths as int);
        assert(s.subrange(j + 1, s.len() as int)[0] == s[j + 1]);
        assert((fr + t)[0] == fr[0]);
        assert(s[j + 1] == fr[0]);
        if rl >= 2 {
            assert(s.subrange(j + 1, s.len() as int)[1] == s[j + 2]);
            assert((fr + t)[1] == fr[1]);
            assert(s[j + 2] == fr[1]);
        }
        if rl >= 3 {
            assert(s.subrange(j + 1, s.len() as int)[2] == s[j + 3]);
            assert((fr + t)[2] == fr[2]);
            assert(s[j + 3] == fr[2]);
        }
        assert forall|k2: int| j + 1 <= k2 < j + 1 + rl implies is_digit(s[k2]) by {
            assert(s.subrange(j + 1, s.len() as int)[k2 - (j + 1)] == s[k2]);
            assert((fr + t)[k2 - (j + 1)] == fr[k2 - (j + 1)]);
        }
        lemma_digit_run_end_geq(s, j + 1, j + 1 + rl);
        lemma_digit_run_end(s, j + 1);
        let e = digit_run_end(s, j + 1);
        if e > j + 1 + rl {
            assert(j + 1 + rl < s.len());
            assert(s.subrange(j + 1, s.len() as int)[rl] == s[j + 1 + rl]);
            assert((fr + t)[rl] == t[0]);
            assert(is_digit(s[j + 1 + rl]));
            assert(false);
        }
        lemma_digit_roundtrip(d.tenths as int);
        lemma_digit_roundtrip(d.hundredths as int);
        lemma_digit_roundtrip(d.thousandths as int);
        if d.thousandths != 0 {
            assert(e == j + 4);
            assert(s[j + 1] == digit_char(d.tenths as int));
            assert(s[j + 2] == digit_char(d.hundredths as int));
            assert(s[j + 3] == digit_char(d.thousandths as int));
            assert(parse_decimal_at(s, i) == Some((d, e)));
        } else if d.hundredths != 0 {
            assert(e == j + 3);
            assert(s[j + 1] == digit_char(d.tenths as int));
            assert(s[j + 2] == digit_char(d.hundredths as int));
            assert(parse_decimal_at(s, i) == Some((d, e)));
        } else {
            assert(e == j + 2);
            assert(s[j + 1] == digit_char(d.tenths as int));
            assert(parse_decimal_at(s, i) == Some((d, e)));
        }
        assert(dec_text(d).len() == dd.len() + 1 + rl);
    }
}

/// The field parser from slot `k` reads back exactly the fields that
/// [`tail_from`] wrote there.
proof fn lemma_parse_fields_complete(s: Seq<char>, i: int, v: ParamsView, k: int)
    requires
        0 <= k <= 9,
        v.valid(),
        0 <= i <= s.len(),
        s.subrange(i, s.len() as int) == tail_from(v, k),
    ensures
        parse_fields(s, i, k) == Some((mask(v, k), s.len() as int)),
    decreases 9 - k,
{
    reveal_key_prefixes();
    assert(s.subrange(i, s.len() as int).len() == s.len() - i);
    lemma_tail_head(v, k);
    assert(s.subrange(i, s.len() as int)[0] == s[i]);
    if k >= 9 {
        assert(s[i] == '}');
        assert(tail_from(v, 9).len() == 1);
        assert(i + 1 == s.len());
        assert(mask(v, 9) == empty_params());
    } else {
        lemma_part_shape(v, k);
        if part(v, k).len() == 0 {
            assert(tail_from(v, k) =~= tail_from(v, k + 1));
            if s[i] == '}' {
                lemma_tail_all_none(v, k);
                assert(i + 1 == s.len());
            } else {
                lemma_tail_no_match(s, i, v, k + 1, k);
                lemma_parse_fields_complete(s, i, v, k + 1);
                assert(mask(v, k) == mask(v, k + 1));
            }
        } else {
            let p = part(v, k);
            let kp = key_prefix(k);
            let rest = p.subrange(kp.len() as int, p.len() as int);
            let t1 = tail_from(v, k + 1);
            assert(tail_from(v, k) =~= kp + (rest + t1));
            lemma_match_prefix(s, i, kp, rest + t1);
            assert(s[i] == ',');
            lemma_suffix_shift(s, i, kp, rest + t1);
            let j0 = i + kp.len();
            lemma_tail_head(v, k + 1);
            if k == 0 {
                match v.model {
                    Some(m) => {
                        let w = m.spec_wire_name();
                        assert(p == kp + escape(w) + seq!['"']);
                        assert(s.subrange(j0, s.len() as int) =~= escape(w) + seq!['"'] + t1) by {
                            assert(rest =~= escape(w) + seq!['"']);
                            assert((escape(w) + seq!['"']) + t1 =~= rest + t1);
                        }
                        lemma_parse_escape(s, j0, w, t1);
                        let j1 = j0 + escape(w).len() + 1;
                        crate::model::lemma_wire_roundtrip(m);
                        lemma_suffix_shift(s, j0, escape(w) + seq!['"'], t1);
                        lemma_parse_fields_complete(s, j1, v, 1);
                        assert((ParamsView { model: Some(m), ..mask(v, 1) }) == mask(v, 0));
                    },
                    None => {
                        assert(false);
                    },
                }
            } else if k == 1 {
                match v.max_length {
                    Some(n) => {
                        let w = dec_digits(n as nat);
                        assert(p == kp + w);
                        assert(s.subrange(j0, s.len() as int) =~= w + t1) by {
                            assert(rest =~= w);
                        }
                        lemma_parse_u32_complete(s, j0, n as nat, t1);
                        let j1 = j0 + w.len();
                        lemma_suffix_shift(s, j0, w, t1);
                        lemma_parse_fields_complete(s, j1, v, 2);
                        assert((ParamsView { max_length: Some(n), ..mask(v, 2) }) == mask(v, 1));
                    },
                    None => {
                        assert(false);
                    },
                }
            } else if k == 2 {
                match v.inputs {
                    Some(x) => {
                        assert(p == kp + escape(x) + seq!['"']);
                        assert(s.subrange(j0, s.len() as int) =~= escape(x) + seq!['"'] + t1) by {
                            assert(rest =~= escape(x) + seq!['"']);
                            assert((escape(x) + seq!['"']) + t1 =~= rest + t1);
                        }
                        lemma_parse_escape(s, j0, x, t1);
                        let j1 = j0 + escape(x).len() + 1;
                        lemma_suffix_shift(s, j0, escape(x) + seq!['"'], t1);
                        lemma_parse_fields_complete(s, j1, v, 3);
                        assert((ParamsView { inputs: Some(x), ..mask(v, 3) }) == mask(v, 2));
                    },
                    None => {
                        assert(false);
                    },
                }
            } else if k == 3 {
                match v.stop_sequence {
                    Some(x) => {
                        assert(p == kp + escape(x) + seq!['"']);
                        assert(s.subrange(j0, s.len() as int) =~= escape(x) + seq!['"'] + t1) by {
                            assert(rest =~= escape(x) + seq!['"']);
                            assert((escape(x) + seq!['"']) + t1 =~= rest + t1);
                        }
                        lemma_parse_escape(s, j0, x, t1);
                        let j1 = j0 + escape(x).len() + 1;
                        lemma_suffix_shift(s, j0, escape(x) + seq!['"'], t1);
                        lemma_parse_fields_complete(s, j1, v, 4);
                        assert((ParamsView { stop_sequence: Some(x), ..mask(v, 4) }) == mask(
                            v,
                            3,
                        ));
                    },
                    None => {
                        assert(false);
                    },
                }
            } else if k == 4 {
                match v.do_sample {
                    Some(b) => {
                        let w = bool_text(b);
                        assert(p == kp + w);
                        assert(s.subrange(j0, s.len() as int) =~= w + t1) by {
                            assert(rest =~= w);
                        }
                        lemma_parse_bool_complete(s, j0, b, t1);
                        let j1 = j0 + w.len();
                        lemma_suffix_shift(s, j0, w, t1);
                        lemma_parse_fields_complete(s, j1, v, 5);
                        assert((ParamsView { do_sample: Some(b), ..mask(v, 5) }) == mask(v, 4));
                    },
                    None => {
                        assert(false);
                    },
                }
            } else if k == 5 {
                match v.temperature {
                    Some(d) => {
                        let w = dec_text(d);
                        assert(p == kp + w);
                        assert(s.subrange(j0, s.len() as int) =~= w + t1) by {
                            assert(rest =~= w);
                        }
                        lemma_parse_decimal_complete(s, j0, d, t1);
                        let j1 = j0 + w.len();
                        lemma_suffix_shift(s, j0, w, t1);
                        lemma_parse_fields_complete(s, j1, v, 6);
                        assert((ParamsView { temperature: Some(d), ..mask(v, 6) }) == mask(v, 5));
                    },
                    None => {
                        assert(false);
                    },
                }
            } else if k == 6 {
                match v.top_k {
                    Some(n) => {
                        let w = dec_digits(n as nat);
                        assert(p == kp + w);
                        assert(s.subrange(j0, s.len() as int) =~= w + t1) by {
                            assert(rest =~= w);
                        }
                        lemma_parse_u32_complete(s, j0, n as nat, t1);
                        let j1 = j0 + w.len();
                        lemma_suffix_shift(s, j0, w, t1);
                        lemma_parse_fields_complete(s, j1, v, 7);
                        assert((ParamsView { top_k: Some(n), ..mask(v, 7) }) == mask(v, 6));
                    },
                    None => {
                        assert(false);
                    },
                }
            } else if k == 7 {
                match v.top_p {
                    Some(d) => {
                        let w = dec_text(d);
                        assert(p == kp + w);
                        assert(s.subrange(j0, s.len() as int) =~= w + t1) by {
                            assert(rest =~= w);
                        }
                        lemma_parse_decimal_complete(s, j0, d, t1);
                        let j1 = j0 + w.len();
                        lemma_suffix_shift(s, j0, w, t1);
                        lemma_parse_fields_complete(s, j1, v, 8);
                        assert((ParamsView { top_p: Some(d), ..mask(v, 8) }) == mask(v, 7));
                    },
                    None => {
                        assert(false);
                    },
                }
            } else {
                match v.max_new_tokens {
                    Some(n) => {
                        let w = dec_digits(n as nat);
                        assert(p == kp + w);
                        assert(s.subrange(j0, s.len() as int) =~= w + t1) by {
                            assert(rest =~= w);
                        }
                        lemma_parse_u32_complete(s, j0, n as nat, t1);
                        let j1 = j0 + w.len();
                        lemma_suffix_shift(s, j0, w, t1);
                        lemma_parse_fields_complete(s, j1, v, 9);
                        assert((ParamsView { max_new_tokens: Some(n), ..mask(v, 9) }) == mask(
                            v,
                            8,
                        ));
                    },
                    None => {
                        assert(false);
                    },
                }
            }
        }
    }
}

/// Round trip: a generate frame decodes back to exactly the parameter fields
/// it was encoded from — every present field with its value, every absent
/// field still absent, and no absent field ever written as `null`.
pub proof fn lemma_generate_round_trip(v: ParamsView)
    requires
        v.valid(),
    ensures
        spec_decode_generate(spec_generate_frame(v)) == Some(v),
{
    let s = spec_generate_frame(v);
    let pre = "{\"type\":\"generate\""@;
    lemma_frame_tail(v);
    assert(s.subrange(0, s.len() as int) =~= s);
    lemma_match_prefix(s, 0, pre, tail_from(v, 0));
    lemma_suffix_shift(s, 0, pre, tail_from(v, 0));
    lemma_parse_fields_complete(s, pre.len() as int, v, 0);
    assert(mask(v, 0) == v);
}

/// Decodes a generate frame back into the set of present fields: the exact
/// inverse of [`spec_generate_frame`] on the frames it writes, and nothing on
/// any other text.
pub open spec fn spec_decode_generate(s: Seq<char>) -> Option<ParamsView> {
    if match_at(s, 0, "{\"type\":\"generate\""@) {
        match parse_fields(s, "{\"type\":\"generate\""@.len() as int, 0) {
            None => None,
            Some((v, e)) => Some(v),
        }
    } else {
        None
    }
}

/// Executable form of [`parse_fields`].
fn parse_fields_exec(s: &str, i: usize, k: usize) -> (r: Option<(GenerateParams, usize)>)
    requires
        i <= s@.len(),
        k <= 9,
    ensures
        match parse_fields(s@, i as int, k as int) {
            Some(p) => r matches Some(q) && q.0@ == p.0 && q.1 as int == p.1,
            None => r is None,
        },
    decreases 9 - k,
{
    let n = s.unicode_len();
    if i < n && s.get_char(i) == '}' {
        if i + 1 == n {
            let q = GenerateParams {
                model: None,
                max_length: None,
                inputs: None,
                stop_sequence: None,
                do_sample: None,
                temperature: None,
                top_k: None,
                top_p: None,
                max_new_tokens: None,
            };
            assert(q@ == empty_params());
            return Some((q, i + 1));
        } else {
            return None;
        }
    }
    if k >= 9 {
        return None;
    }
    if k == 0 {
        if match_lit(s, i, ",\"model\":\"") {
            assert(i + ",\"model\":\""@.len() <= n);
            let j0 = i + ",\"model\":\"".unicode_len();
            proof {
                lemma_parse_string_body_bounds(s@, j0 as int);
            }
            match parse_jstring_body(s, j0) {
                None => None,
                Some((wn, j)) => match crate::model::model_from_wire(wn.as_str()) {
                    None => None,
                    Some(m) => match parse_fields_exec(s, j, 1) {
                        None => None,
                        Some((q, e)) => {
                            let mut q2 = q;
                            q2.model = Some(m);
                            Some((q2, e))
                        },
                    },
                },
            }
        } else {
            parse_fields_exec(s, i, 1)
        }
    } else if k == 1 {
        if match_lit(s, i, ",\"max_length\":") {
            assert(i + ",\"max_length\":"@.len() <= n);
            let j0 = i + ",\"max_length\":".unicode_len();
            proof {
                lemma_digit_run_end(s@, j0 as int);
            }
            match parse_u32(s, j0) {
                None => None,
                Some((v, j)) => match parse_fields_exec(s, j, 2) {
                    None => None,
                    Some((q, e)) => {
                        let mut q2 = q;
                        q2.max_length = Some(v);
                        Some((q2, e))
                    },
                },
            }
        } else {
            parse_fields_exec(s, i, 2)
        }
    } else if k == 2 {
        if match_lit(s, i, ",\"inputs\":\"") {
            assert(i + ",\"inputs\":\""@.len() <= n);
            let j0 = i + ",\"inputs\":\"".unicode_len();
            proof {
                lemma_parse_string_body_bounds(s@, j0 as int);
            }
            match parse_jstring_body(s, j0) {
                None => None,
                Some((x, j)) => match parse_fields_exec(s, j, 3) {
                    None => None,
                    Some((q, e)) => {
                        let mut q2 = q;
                        q2.inputs = Some(x);
                        Some((q2, e))
                    },
                },
            }
        } else {
            parse_fields_exec(s, i, 3)
        }
    } else if k == 3 {
        if match_lit(s, i, ",\"stop_sequence\":\"") {
            assert(i + ",\"stop_sequence\":\""@.len() <= n);
            let j0 = i + ",\"stop_sequence\":\"".unicode_len();
            proof {
                lemma_parse_string_body_bounds(s@, j0 as int);
            }
            match parse_jstring_body(s, j0) {
                None => None,
                Some((x, j)) => match parse_fields_exec(s, j, 4) {
                    None => None,
                    Some((q, e)) => {
                        let mut q2 = q;
                        q2.stop_sequence = Some(x);
                        Some((q2, e))
                    },
                },
            }
        } else {
            parse_fields_exec(s, i, 4)
        }
    } else if k == 4 {
        if match_lit(s, i, ",\"do_sample\":") {
            assert(i + ",\"do_sample\":"@.len() <= n);
            let j0 = i + ",\"do_sample\":".unicode_len();
            match parse_bool(s, j0) {
                None => None,
                Some((b, j)) => match parse_fields_exec(s, j, 5) {
                    None => None,
                    Some((q, e)) => {
                        let mut q2 = q;
                        q2.do_sample = Some(b);
                        Some((q2, e))
                    },
                },
            }
        } else {
            parse_fields_exec(s, i, 5)
        }
    } else if k == 5 {
        if match_lit(s, i, ",\"temperature\":") {
            assert(i + ",\"temperature\":"@.len() <= n);
            let j0 = i + ",\"temperature\":".unicode_len();
            match parse_decimal(s, j0) {
                None => None,
                Some((d, j)) => match parse_fields_exec(s, j, 6) {
                    None => None,
                    Some((q, e)) => {
                        let mut q2 = q;
                        q2.temperature = Some(d);
                        Some((q2, e))
                    },
                },
            }
        } else {
            parse_fields_exec(s, i, 6)
        }
    } else if k == 6 {
        if match_lit(s, i, ",\"top_k\":") {
            assert(i + ",\"top_k\":"@.len() <= n);
            let j0 = i + ",\"top_k\":".unicode_len();
            proof {
                lemma_digit_run_end(s@, j0 as int);
            }
            match parse_u32(s, j0) {
                None => None,
                Some((v, j)) => match parse_fields_exec(s, j, 7) {
                    None => None,
                    Some((q, e)) => {
                        let mut q2 = q;
                        q2.top_k = Some(v);
                        Some((q2, e))
                    },
                },
            }
        } else {
            parse_fields_exec(s, i, 7)
        }
    } else if k == 7 {
        if match_lit(s, i, ",\"top_p\":") {
            assert(i + ",\"top_p\":"@.len() <= n);
            let j0 = i + ",\"top_p\":".unicode_len();
            match parse_decimal(s, j0) {
                None => None,
                Some((d, j)) => match parse_fields_exec(s, j, 8) {
                    None => None,
                    Some((q, e)) => {
                        let mut q2 = q;
                        q2.top_p = Some(d);
                        Some((q2, e))
                    },
                },
            }
        } else {
            parse_fields_exec(s, i, 8)
        }
    } else {
        if match_lit(s, i, ",\"max_new_tokens\":") {
            assert(i + ",\"max_new_tokens\":"@.len() <= n);
            let j0 = i + ",\"max_new_tokens\":".unicode_len();
            proof {
                lemma_digit_run_end(s@, j0 as int);
            }
            match parse_u32(s, j0) {
                None => None,
                Some((v, j)) => match parse_fields_exec(s, j, 9) {
                    None => None,
                    Some((q, e)) => {
                        let mut q2 = q;
                        q2.max_new_tokens = Some(v);
                        Some((q2, e))
                    },
                },
            }
        } else {
            parse_fields_exec(s, i, 9)
        }
    }
}

/// Decodes a generate frame: the exact inverse of [`encode_generate`] on the
/// frames it writes, per [`spec_decode_generate`], and nothing on any other
/// text.
pub fn decode_generate(s: &str) -> (r: Option<GenerateParams>)
    ensures
        match spec_decode_generate(s@) {
            Some(v) => r matches Some(p) && p@ == v,
            None => r is None,
        },
{
    if match_lit(s, 0, "{\"type\":\"generate\"") {
        assert("{\"type\":\"generate\""@.len() <= s@.len());
        let j = "{\"type\":\"generate\"".unicode_len();
        match parse_fields_exec(s, j, 0) {
            None => None,
            Some((p, _e)) => Some(p),
        }
    } else {
        None
    }
}

// ---------------------------------------------------------------------------
// Inbound response frames
// ---------------------------------------------------------------------------

/// The fields of one inbound response frame, as plain values: the success
/// flag, and whichever of the optional fields the frame carried.
pub ghost struct RespView {
    pub ok: bool,
    pub outputs: Option<Seq<char>>,
    pub stop: Option<bool>,
    pub traceback: Option<Seq<char>>,
}

/// Parses a JSON boolean at `i`.
pub open spec fn parse_bool_at(s: Seq<char>, i: int) -> Option<(bool, int)> {
    if match_at(s, i, "true"@) {
        Some((true, i + "true"@.len()))
    } else if match_at(s, i, "false"@) {
        Some((false, i + "false"@.len()))
    } else {
        None
    }
}

/// Parses a quoted JSON string at `i`, quotes included.
pub open spec fn parse_quoted_at(s: Seq<char>, i: int) -> Option<(Seq<char>, int)> {
    if i < s.len() && s[i] == '"' {
        parse_string_body_at(s, i + 1)
    } else {
        None
    }
}

/// Recognizes `, "key" :` with any spacing, starting at `i`; yields the
/// cursor just after the colon's trailing whitespace.
pub open spec fn field_header_end(s: Seq<char>, i: int, key: Seq<char>) -> Option<int> {
    let a = ws_end(s, i);
    if a < s.len() && s[a] == ',' {
        let b = ws_end(s, a + 1);
        if match_at(s, b, key) {
            let c = ws_end(s, b + key.len());
            if c < s.len() && s[c] == ':' {
                Some(ws_end(s, c + 1))
            } else {
                None
            }
        } else {
            None
        }
    } else {
        None
    }
}

/// Parses an optional string-valued response field: absent when its header
/// is not there, an error when the header is there but the value is not a
/// string.
pub open spec fn parse_opt_str_field(s: Seq<char>, i: int, key: Seq<char>) -> Option<
    (Option<Seq<char>>, int),
> {
    match field_header_end(s, i, key) {
        None => Some((None, i)),
        Some(j) => match parse_quoted_at(s, j) {
            Some(p) => Some((Some(p.0), p.1)),
            None => None,
        },
    }
}

/// Parses an optional boolean-valued response field.
pub open spec fn parse_opt_bool_field(s: Seq<char>, i: int, key: Seq<char>) -> Option<
    (Option<bool>, int),
> {
    match field_header_end(s, i, key) {
        None => Some((None, i)),
        Some(j) => match parse_bool_at(s, j) {
            Some(p) => Some((Some(p.0), p.1)),
            None => None,
        },
    }
}

/// Parses one whole inbound response frame: a JSON object carrying `ok`
/// (required, first), then optionally `outputs`, `stop` and `traceback`, in
/// that order, with any spacing between tokens. Anything else is a decode
/// failure.
pub open spec fn spec_parse_response(s: Seq<char>) -> Option<RespView> {
    let a = ws_end(s, 0);
    if a < s.len() && s[a] == '{' {
        let b = ws_end(s, a + 1);
        if match_at(s, b, "\"ok\""@) {
            let c = ws_end(s, b + "\"ok\""@.len());
            if c < s.len() && s[c] == ':' {
                let d = ws_end(s, c + 1);
                match parse_bool_at(s, d) {
                    None => None,
                    Some((okv, i0)) => match parse_opt_str_field(s, i0, "\"outputs\""@) {
                        None => None,
                        Some((outs, i1)) => match parse_opt_bool_field(s, i1, "\"stop\""@) {
                            None => None,
                            Some((stopv, i2)) => match parse_opt_str_field(
                                s,
                                i2,
                                "\"traceback\""@,
                            ) {
                                None => None,
                                Some((tb, i3)) => {
                                    let e = ws_end(s, i3);
                                    if e < s.len() && s[e] == '}' && ws_end(s, e + 1) == s.len() {
                                        Some(
                                            RespView {
                                                ok: okv,
                                                outputs: outs,
                                                stop: stopv,
                                                traceback: tb,
                                            },
                                        )
                                    } else {
                                        None
                                    }
                                },
                            },
                        },
                    },
                }
            } else {
                None
            }
        } else {
            None
        }
    } else {
        None
    }
}

/// The fields of one decoded inbound frame.
#[derive(Debug, Clone)]
pub struct ResponseFields {
    pub ok: bool,
    pub outputs: Option<String>,
    pub stop: Option<bool>,
    pub traceback: Option<String>,
}

impl View for ResponseFields {
    type V = RespView;

    open spec fn view(&self) -> RespView {
        RespView {
            ok: self.ok,
            outputs: self.outputs.deep_view(),
            stop: self.stop,
            traceback: self.traceback.deep_view(),
        }
    }
}

/// Executable form of [`parse_bool_at`].
fn parse_bool(s: &str, i: usize) -> (r: Option<(bool, usize)>)
    requires
        i <= s@.len(),
    ensures
        match parse_bool_at(s@, i as int) {
            Some(p) => r matches Some(q) && q.0 == p.0 && q.1 as int == p.1 && p.1 <= s@.len(),
            None => r is None,
        },
{
    let n = s.unicode_len();
    if match_lit(s, i, "true") {
        assert(i + "true"@.len() <= n);
        Some((true, i + "true".unicode_len()))
    } else if match_lit(s, i, "false") {
        assert(i + "false"@.len() <= n);
        Some((false, i + "false".unicode_len()))
    } else {
        None
    }
}

/// Executable form of [`parse_quoted_at`].
fn parse_quoted(s: &str, i: usize) -> (r: Option<(String, usize)>)
    requires
        i <= s@.len(),
    ensures
        match parse_quoted_at(s@, i as int) {
            Some(p) => r matches Some(q) && q.0@ == p.0 && q.1 as int == p.1 && p.1 <= s@.len(),
            None => r is None,
        },
{
    if i < s.unicode_len() && s.get_char(i) == '"' {
        proof {
            crate::text::lemma_parse_string_body_bounds(s@, i as int + 1);
        }
        parse_jstring_body(s, i + 1)
    } else {
        None
    }
}

/// Executable form of [`field_header_end`].
fn field_header(s: &str, i: usize, key: &str) -> (r: Option<usize>)
    requires
        i <= s@.len(),
    ensures
        match field_header_end(s@, i as int, key@) {
            Some(j) => r matches Some(q) && q as int == j && j <= s@.len(),
            None => r is None,
        },
{
    let n = s.unicode_len();
    let a = skip_ws(s, i);
    if a < n && s.get_char(a) == ',' {
        let b = skip_ws(s, a + 1);
        if match_lit(s, b, key) {
            assert(b + key@.len() <= n);
            let c = skip_ws(s, b + key.unicode_len());
            if c < s.unicode_len() && s.get_char(c) == ':' {
                Some(skip_ws(s, c + 1))
            } else {
                None
            }
        } else {
            None
        }
    } else {
        None
    }
}

/// Executable form of [`parse_opt_str_field`].
fn parse_opt_str(s: &str, i: usize, key: &str) -> (r: Option<(Option<String>, usize)>)
    requires
        i <= s@.len(),
    ensures
        match parse_opt_str_field(s@, i as int, key@) {
            Some(p) => r matches Some(q) && q.0.deep_view() == p.0 && q.1 as int == p.1 && p.1
                <= s@.len(),
            None => r is None,
        },
{
    match field_header(s, i, key) {
        None => Some((None, i)),
        Some(j) => match parse_quoted(s, j) {
            Some((v, k)) => Some((Some(v), k)),
            None => None,
        },
    }
}

/// Executable form of [`parse_opt_bool_field`].
fn parse_opt_bool(s: &str, i: usize, key: &str) -> (r: Option<(Option<bool>, usize)>)
    requires
        i <= s@.len(),
    ensures
        match parse_opt_bool_field(s@, i as int, key@) {
            Some(p) => r matches Some(q) && q.0 == p.0 && q.1 as int == p.1 && p.1 <= s@.len(),
            None => r is None,
        },
{
    match field_header(s, i, key) {
        None => Some((None, i)),
        Some(j) => match parse_bool(s, j) {
            Some((v, k)) => Some((Some(v), k)),
            None => None,
        },
    }
}

/// Decodes one inbound response frame; returns exactly the fields
/// [`spec_parse_response`] gives, and nothing on a malformed frame.
pub fn parse_response_frame(s: &str) -> (r: Option<ResponseFields>)
    ensures
        match spec_parse_response(s@) {
            Some(f) => r matches Some(q) && q@ == f,
            None => r is None,
        },
{
    let a = skip_ws(s, 0);
    if !(a < s.unicode_len() && s.get_char(a) == '{') {
        return None;
    }
    let b = skip_ws(s, a + 1);
    if !match_lit(s, b, "\"ok\"") {
        return None;
    }
    let c = skip_ws(s, b + "\"ok\"".unicode_len());
    if !(c < s.unicode_len() && s.get_char(c) == ':') {
        return None;
    }
    let d = skip_ws(s, c + 1);
    let (okv, i0) = match parse_bool(s, d) {
        None => {
            return None;
        },
        Some(p) => p,
    };
    let (outs, i1) = match parse_opt_str(s, i0, "\"outputs\"") {
        None => {
            return None;
        },
        Some(p) => p,
    };
    let (stopv, i2) = match parse_opt_bool(s, i1, "\"stop\"") {
        None => {
            return None;
        },
        Some(p) => p,
    };
    let (tb, i3) = match parse_opt_str(s, i2, "\"traceback\"") {
        None => {
            return None;
        },
        Some(p) => p,
    };
    let e = skip_ws(s, i3);
    if e < s.unicode_len() && s.get_char(e) == '}' && skip_ws(s, e + 1) == s.unicode_len() {
        Some(ResponseFields { ok: okv, outputs: outs, stop: stopv, traceback: tb })
    } else {
        None
    }
}

/// Encodes an open-session request: exactly the frame [`spec_open_frame`]
/// describes.
pub fn encode_open_session(max_length: u32, model: &Option<Model>) -> (s: String)
    ensures
        s@ == spec_open_frame(max_length, *model),
{
    let mut out = String::from_str("{\"type\":\"open_inference_session\",\"max_length\":");
    emit_u32(max_length, &mut out);
    if let Some(m) = model {
        out.append(",\"model\":\"");
        emit_jstring(m.wire_name(), &mut out);
    }
    push_char(&mut out, '}');
    assert(out@ =~= spec_open_frame(max_length, *model));
    out
}

} // verus!
