//! Character-level primitives of the wire codec: decimal digits, JSON string
//! escaping, and the small scanners the frame parsers are built from.
//!
//! Every parser here is written twice: a specification function over
//! `Seq<char>` with an explicit cursor, and an executable function proved to
//! return exactly what the specification function says.

use vstd::prelude::*;

verus! {

// ---------------------------------------------------------------------------
// Decimal digits
// ---------------------------------------------------------------------------

/// True of the ten decimal digit characters.
pub open spec fn is_digit(c: char) -> bool {
    c == '0' || c == '1' || c == '2' || c == '3' || c == '4' || c == '5' || c == '6' || c == '7'
        || c == '8' || c == '9'
}

/// The digit character for a value below ten.
pub open spec fn digit_char(d: int) -> char {
    if d == 0 {
        '0'
    } else if d == 1 {
        '1'
    } else if d == 2 {
        '2'
    } else if d == 3 {
        '3'
    } else if d == 4 {
        '4'
    } else if d == 5 {
        '5'
    } else if d == 6 {
        '6'
    } else if d == 7 {
        '7'
    } else if d == 8 {
        '8'
    } else {
        '9'
    }
}

/// The value of a digit character; meaningful only when `is_digit` holds.
pub open spec fn digit_val(c: char) -> nat {
    if c == '0' {
        0
    } else if c == '1' {
        1
    } else if c == '2' {
        2
    } else if c == '3' {
        3
    } else if c == '4' {
        4
    } else if c == '5' {
        5
    } else if c == '6' {
        6
    } else if c == '7' {
        7
    } else if c == '8' {
        8
    } else {
        9
    }
}

/// Tests whether a character is a decimal digit.
pub fn is_digit_char(c: char) -> (b: bool)
    ensures
        b == is_digit(c),
{
    c == '0' || c == '1' || c == '2' || c == '3' || c == '4' || c == '5' || c == '6' || c == '7'
        || c == '8' || c == '9'
}

/// The digit character of a value below ten.
pub fn digit_to_char(d: u32) -> (c: char)
    requires
        d < 10,
    ensures
        c == digit_char(d as int),
{
    if d == 0 {
        '0'
    } else if d == 1 {
        '1'
    } else if d == 2 {
        '2'
    } else if d == 3 {
        '3'
    } else if d == 4 {
        '4'
    } else if d == 5 {
        '5'
    } else if d == 6 {
        '6'
    } else if d == 7 {
        '7'
    } else if d == 8 {
        '8'
    } else {
        '9'
    }
}

/// The value of a decimal digit character.
pub fn char_to_digit(c: char) -> (d: u32)
    requires
        is_digit(c),
    ensures
        d as nat == digit_val(c),
        d < 10,
{
    if c == '0' {
        0
    } else if c == '1' {
        1
    } else if c == '2' {
        2
    } else if c == '3' {
        3
    } else if c == '4' {
        4
    } else if c == '5' {
        5
    } else if c == '6' {
        6
    } else if c == '7' {
        7
    } else if c == '8' {
        8
    } else {
        9
    }
}

// ---------------------------------------------------------------------------
// Building strings
// ---------------------------------------------------------------------------

/// Relies on `String::push` of std: it appends exactly the given character.
#[verifier::external_body]
pub(crate) fn push_char(s: &mut String, c: char)
    ensures
        final(s)@ == old(s)@.push(c),
{
    s.push(c);
}

// ---------------------------------------------------------------------------
// Unsigned decimal numbers
// ---------------------------------------------------------------------------

/// The decimal digit string of `n`, most significant digit first, with no
/// leading zero (except for `n == 0` itself).
pub open spec fn dec_digits(n: nat) -> Seq<char>
    decreases n,
{
    if n < 10 {
        seq![digit_char(n as int)]
    } else {
        dec_digits(n / 10).push(digit_char((n % 10) as int))
    }
}

/// The numeric value of a digit string.
pub open spec fn digits_val(s: Seq<char>) -> nat
    decreases s.len(),
{
    if s.len() == 0 {
        0
    } else {
        digits_val(s.drop_last()) * 10 + digit_val(s.last())
    }
}

/// True when every character of `s` is a decimal digit.
pub open spec fn all_digits(s: Seq<char>) -> bool {
    forall|k: int| 0 <= k < s.len() ==> is_digit(s[k])
}

/// A digit's character evaluates back to the digit.
pub proof fn lemma_digit_roundtrip(d: int)
    requires
        0 <= d < 10,
    ensures
        digit_val(digit_char(d)) == d,
        is_digit(digit_char(d)),
{
}

/// The digit string of `n` consists of digits, is non-empty, and evaluates
/// back to `n`.
pub proof fn lemma_dec_digits_val(n: nat)
    ensures
        digits_val(dec_digits(n)) == n,
        all_digits(dec_digits(n)),
        dec_digits(n).len() >= 1,
    decreases n,
{
    if n < 10 {
        let s = dec_digits(n);
        assert(s =~= seq![digit_char(n as int)]);
        assert(s.drop_last() =~= Seq::<char>::empty());
        assert(digits_val(Seq::<char>::empty()) == 0);
        assert(s.last() == digit_char(n as int));
        lemma_digit_roundtrip(n as int);
        assert(digits_val(s) == digits_val(s.drop_last()) * 10 + digit_val(s.last()));
        assert forall|k: int| 0 <= k < s.len() implies is_digit(s[k]) by {
            assert(s[k] == digit_char(n as int));
        }
    } else {
        lemma_dec_digits_val(n / 10);
        let s = dec_digits(n);
        let h = dec_digits(n / 10);
        assert(s == h.push(digit_char((n % 10) as int)));
        assert(s.drop_last() =~= h);
        assert(s.last() == digit_char((n % 10) as int));
        lemma_digit_roundtrip((n % 10) as int);
        assert(digits_val(s) == digits_val(s.drop_last()) * 10 + digit_val(s.last()));
        vstd::arithmetic::div_mod::lemma_fundamental_div_mod(n as int, 10);
        assert forall|k: int| 0 <= k < s.len() implies is_digit(s[k]) by {
            if k < h.len() {
                assert(s[k] == h[k]);
                assert(is_digit(h[k]));
            } else {
                assert(s[k] == digit_char((n % 10) as int));
            }
        }
    }
}

/// Appends the decimal digit string of `n`.
pub fn emit_u32(n: u32, out: &mut String)
    ensures
        final(out)@ == old(out)@ + dec_digits(n as nat),
    decreases n,
{
    if n >= 10 {
        emit_u32(n / 10, out);
        let c = digit_to_char(n % 10);
        push_char(out, c);
        assert(final(out)@ =~= old(out)@ + dec_digits(n as nat));
    } else {
        let c = digit_to_char(n);
        push_char(out, c);
        assert(final(out)@ =~= old(out)@ + dec_digits(n as nat));
    }
}

// ---------------------------------------------------------------------------
// Scanning digit runs
// ---------------------------------------------------------------------------

/// The first index at or after `i` that does not hold a digit.
pub open spec fn digit_run_end(s: Seq<char>, i: int) -> int
    decreases s.len() - i
        when 0 <= i <= s.len()
{
    if i < s.len() && is_digit(s[i]) {
        digit_run_end(s, i + 1)
    } else {
        i
    }
}

/// Characterizes `digit_run_end`: it points past a run of digits and at a
/// non-digit (or the end).
pub proof fn lemma_digit_run_end(s: Seq<char>, i: int)
    requires
        0 <= i <= s.len(),
    ensures
        i <= digit_run_end(s, i) <= s.len(),
        forall|k: int| i <= k < digit_run_end(s, i) ==> is_digit(s[k]),
        digit_run_end(s, i) < s.len() ==> !is_digit(s[digit_run_end(s, i)]),
    decreases s.len() - i,
{
    if i < s.len() && is_digit(s[i]) {
        lemma_digit_run_end(s, i + 1);
    }
}

/// A run of digits at `i` pushes `digit_run_end` at least past the run.
pub proof fn lemma_digit_run_end_geq(s: Seq<char>, i: int, j: int)
    requires
        0 <= i <= j <= s.len(),
        forall|k: int| i <= k < j ==> is_digit(s[k]),
    ensures
        digit_run_end(s, i) >= j,
    decreases j - i,
{
    lemma_digit_run_end(s, i);
    if i < j {
        assert(is_digit(s[i]));
        assert(digit_run_end(s, i) == digit_run_end(s, i + 1));
        lemma_digit_run_end_geq(s, i + 1, j);
    }
}

/// Extending a digit string on the right can only grow its value.
pub proof fn lemma_digits_val_extend_le(s: Seq<char>, i: int, k: int, e: int)
    requires
        0 <= i <= k <= e <= s.len(),
    ensures
        digits_val(s.subrange(i, k)) <= digits_val(s.subrange(i, e)),
    decreases e - k,
{
    if k < e {
        let a = s.subrange(i, k);
        let b = s.subrange(i, k + 1);
        assert(b.drop_last() =~= a);
        assert(digits_val(b) == digits_val(a) * 10 + digit_val(b.last()));
        lemma_digits_val_extend_le(s, i, k + 1, e);
    }
}

// ---------------------------------------------------------------------------
// Parsing unsigned numbers
// ---------------------------------------------------------------------------

/// Parses a decimal number at `i`: the maximal digit run starting there,
/// rejected when it is empty or its value does not fit in `u32`.
pub open spec fn parse_u32_at(s: Seq<char>, i: int) -> Option<(nat, int)> {
    let e = digit_run_end(s, i);
    if e == i || digits_val(s.subrange(i, e)) > u32::MAX {
        None
    } else {
        Some((digits_val(s.subrange(i, e)), e))
    }
}

/// Executable decimal number parser; returns what [`parse_u32_at`] says.
pub fn parse_u32(s: &str, i: usize) -> (r: Option<(u32, usize)>)
    requires
        i <= s@.len(),
    ensures
        match parse_u32_at(s@, i as int) {
            Some(p) => r matches Some(q) && q.0 as nat == p.0 && q.1 as int == p.1,
            None => r is None,
        },
{
    let ghost e = digit_run_end(s@, i as int);
    proof {
        lemma_digit_run_end(s@, i as int);
    }
    let n = s.unicode_len();
    let mut j = i;
    let mut acc: u64 = 0;
    let mut too_big = false;
    while j < n && is_digit_char(s.get_char(j)) && !too_big
        invariant
            i <= j <= n,
            n == s@.len(),
            forall|k: int| i <= k < j ==> is_digit(s@[k]),
            !too_big ==> acc as nat == digits_val(s@.subrange(i as int, j as int)) && acc
                <= u32::MAX,
            too_big ==> digits_val(s@.subrange(i as int, j as int)) > u32::MAX && j <= e,
            e == digit_run_end(s@, i as int),
        decreases n - j + (if too_big { 0int } else { 1int }),
    {
        let c = s.get_char(j);
        let d = char_to_digit(c);
        let next = acc * 10 + d as u64;
        let ghost pre = s@.subrange(i as int, j as int);
        let ghost cur = s@.subrange(i as int, j as int + 1);
        proof {
            assert(cur.drop_last() =~= pre);
            lemma_digit_run_end_geq(s@, i as int, j as int + 1);
        }
        if next > u32::MAX as u64 {
            too_big = true;
        } else {
            acc = next;
        }
        j = j + 1;
    }
    if too_big {
        proof {
            lemma_digits_val_extend_le(s@, i as int, j as int, e);
        }
        None
    } else if j == i {
        None
    } else {
        proof {
            // The loop stopped at the end or at a non-digit, so j is the run end.
            lemma_digit_run_end_geq(s@, i as int, j as int);
        }
        Some((acc as u32, j))
    }
}

/// A canonical digit string parses back to its value: if the text at `i` is
/// `dec_digits(n)` followed by a non-digit (or the end), the parser yields
/// exactly `n` and stops right after the digits.
pub proof fn lemma_parse_u32_complete(s: Seq<char>, i: int, n: nat, t: Seq<char>)
    requires
        0 <= i <= s.len(),
        n <= u32::MAX,
        s.subrange(i, s.len() as int) == dec_digits(n) + t,
        t.len() == 0 || !is_digit(t[0]),
    ensures
        parse_u32_at(s, i) == Some((n, i + dec_digits(n).len())),
{
    lemma_dec_digits_val(n);
    let d = dec_digits(n);
    let j = i + d.len();
    assert(s.subrange(i, s.len() as int).len() == s.len() - i);
    assert((d + t).len() == d.len() + t.len());
    assert forall|k: int| i <= k < j implies is_digit(s[k]) by {
        assert(s.subrange(i, s.len() as int)[k - i] == s[k]);
        assert((d + t)[k - i] == d[k - i]);
    }
    lemma_digit_run_end_geq(s, i, j);
    lemma_digit_run_end(s, i);
    let e = digit_run_end(s, i);
    if e > j {
        // Then s[j] would be a digit, but it is t[0] or past the end.
        assert(j < s.len());
        assert(s.subrange(i, s.len() as int)[j - i] == s[j]);
        assert((d + t)[j - i] == t[0]);
        assert(false);
    }
    assert(s.subrange(i, e) =~= d);
}

// ---------------------------------------------------------------------------
// Literal matching
// ---------------------------------------------------------------------------

/// True when the text `lit` occurs in `s` starting at `i`.
pub open spec fn match_at(s: Seq<char>, i: int, lit: Seq<char>) -> bool {
    &&& 0 <= i
    &&& i + lit.len() <= s.len()
    &&& s.subrange(i, i + lit.len()) == lit
}

/// Whatever begins the rest of the text matches there.
pub proof fn lemma_match_prefix(s: Seq<char>, i: int, a: Seq<char>, rest: Seq<char>)
    requires
        0 <= i <= s.len(),
        s.subrange(i, s.len() as int) == a + rest,
    ensures
        match_at(s, i, a),
{
    assert(s.subrange(i, s.len() as int).len() == s.len() - i);
    assert((a + rest).len() == a.len() + rest.len());
    assert(s.subrange(i, i + a.len()) =~= a) by {
        assert forall|k: int| 0 <= k < a.len() implies s.subrange(i, i + a.len())[k] == a[k] by {
            assert(s.subrange(i, s.len() as int)[k] == s[i + k]);
            assert((a + rest)[k] == a[k]);
        }
    }
}

/// Two texts that differ at some index cannot both match at the same spot.
pub proof fn lemma_match_excludes(s: Seq<char>, i: int, a: Seq<char>, b: Seq<char>, d: int)
    requires
        match_at(s, i, a),
        0 <= d < a.len(),
        d < b.len(),
        a[d] != b[d],
    ensures
        !match_at(s, i, b),
{
    if match_at(s, i, b) {
        assert(s.subrange(i, i + a.len())[d] == s[i + d]);
        assert(s.subrange(i, i + b.len())[d] == s[i + d]);
    }
}

/// Executable literal matcher; returns what [`match_at`] says.
pub fn match_lit(s: &str, i: usize, lit: &str) -> (b: bool)
    requires
        i <= s@.len(),
    ensures
        b == match_at(s@, i as int, lit@),
{
    let n = s.unicode_len();
    let m = lit.unicode_len();
    if m > n - i {
        assert(!match_at(s@, i as int, lit@));
        return false;
    }
    let mut k: usize = 0;
    while k < m
        invariant
            0 <= k <= m,
            i + m <= n,
            n == s@.len(),
            m == lit@.len(),
            forall|q: int| 0 <= q < k ==> s@[i + q] == lit@[q],
        decreases m - k,
    {
        if s.get_char(i + k) != lit.get_char(k) {
            assert(!match_at(s@, i as int, lit@)) by {
                if match_at(s@, i as int, lit@) {
                    assert(s@.subrange(i as int, i as int + lit@.len())[k as int] == s@[i + k]);
                }
            }
            return false;
        }
        k = k + 1;
    }
    assert(s@.subrange(i as int, i as int + lit@.len()) =~= lit@);
    true
}

// ---------------------------------------------------------------------------
// String escaping
// ---------------------------------------------------------------------------

/// The lowercase hexadecimal digit for a value below sixteen.
pub open spec fn hex_char(d: int) -> char {
    if d < 10 {
        digit_char(d)
    } else if d == 10 {
        'a'
    } else if d == 11 {
        'b'
    } else if d == 12 {
        'c'
    } else if d == 13 {
        'd'
    } else if d == 14 {
        'e'
    } else {
        'f'
    }
}

/// True of the lowercase hexadecimal digit characters.
pub open spec fn is_hex(c: char) -> bool {
    is_digit(c) || c == 'a' || c == 'b' || c == 'c' || c == 'd' || c == 'e' || c == 'f'
}

/// The value of a lowercase hexadecimal digit character.
pub open spec fn hex_val(c: char) -> nat {
    if is_digit(c) {
        digit_val(c)
    } else if c == 'a' {
        10
    } else if c == 'b' {
        11
    } else if c == 'c' {
        12
    } else if c == 'd' {
        13
    } else if c == 'e' {
        14
    } else {
        15
    }
}

/// A hexadecimal digit's character evaluates back to the digit.
pub proof fn lemma_hex_roundtrip(d: int)
    requires
        0 <= d < 16,
    ensures
        hex_val(hex_char(d)) == d,
        is_hex(hex_char(d)),
{
}

/// The lowercase hexadecimal digit character of a value below sixteen.
pub fn hex_to_char(d: u32) -> (c: char)
    requires
        d < 16,
    ensures
        c == hex_char(d as int),
{
    if d < 10 {
        digit_to_char(d)
    } else if d == 10 {
        'a'
    } else if d == 11 {
        'b'
    } else if d == 12 {
        'c'
    } else if d == 13 {
        'd'
    } else if d == 14 {
        'e'
    } else {
        'f'
    }
}

/// Tests whether a character is a lowercase hexadecimal digit.
pub fn is_hex_char(c: char) -> (b: bool)
    ensures
        b == is_hex(c),
{
    is_digit_char(c) || c == 'a' || c == 'b' || c == 'c' || c == 'd' || c == 'e' || c == 'f'
}

/// The value of a lowercase hexadecimal digit character.
pub fn char_to_hex(c: char) -> (d: u32)
    requires
        is_hex(c),
    ensures
        d as nat == hex_val(c),
        d < 16,
{
    if is_digit_char(c) {
        char_to_digit(c)
    } else if c == 'a' {
        10
    } else if c == 'b' {
        11
    } else if c == 'c' {
        12
    } else if c == 'd' {
        13
    } else if c == 'e' {
        14
    } else {
        15
    }
}

/// How one character is written inside a quoted string: quote and backslash
/// get a backslash escape, control characters a `\u00xx` escape, and every
/// other character stands for itself.
pub open spec fn esc_char(c: char) -> Seq<char> {
    if c == '"' {
        seq!['\\', '"']
    } else if c == '\\' {
        seq!['\\', '\\']
    } else if (c as u32) < 32 {
        seq![
            '\\',
            'u',
            '0',
            '0',
            hex_char(((c as u32) / 16) as int),
            hex_char(((c as u32) % 16) as int),
        ]
    } else {
        seq![c]
    }
}

/// The escaped form of a text, written between the quotes of a JSON string.
pub open spec fn escape(v: Seq<char>) -> Seq<char>
    decreases v.len(),
{
    if v.len() == 0 {
        Seq::empty()
    } else {
        esc_char(v[0]) + escape(v.drop_first())
    }
}

/// Escaping distributes over concatenation.
pub proof fn lemma_escape_append(a: Seq<char>, b: Seq<char>)
    ensures
        escape(a + b) == escape(a) + escape(b),
    decreases a.len(),
{
    if a.len() == 0 {
        assert(a + b =~= b);
        assert(escape(a) + escape(b) =~= escape(b));
    } else {
        assert((a + b).drop_first() =~= a.drop_first() + b);
        assert((a + b)[0] == a[0]);
        lemma_escape_append(a.drop_first(), b);
        assert(escape(a + b) =~= escape(a) + escape(b));
    }
}

/// Escaping a single character is that character's escape.
pub proof fn lemma_escape_single(c: char)
    ensures
        escape(seq![c]) == esc_char(c),
{
    assert(seq![c].drop_first() =~= Seq::<char>::empty());
    assert(esc_char(c) + escape(Seq::<char>::empty()) =~= esc_char(c));
}

/// Appends the escape of one character.
fn push_esc_char(c: char, out: &mut String)
    ensures
        final(out)@ == old(out)@ + esc_char(c),
{
    if c == '"' {
        push_char(out, '\\');
        push_char(out, '"');
        assert(final(out)@ =~= old(out)@ + esc_char(c));
    } else if c == '\\' {
        push_char(out, '\\');
        push_char(out, '\\');
        assert(final(out)@ =~= old(out)@ + esc_char(c));
    } else {
        let u = c as u32;
        if u < 32 {
            push_char(out, '\\');
            push_char(out, 'u');
            push_char(out, '0');
            push_char(out, '0');
            let hi = hex_to_char(u / 16);
            push_char(out, hi);
            let lo = hex_to_char(u % 16);
            push_char(out, lo);
            assert(final(out)@ =~= old(out)@ + esc_char(c));
        } else {
            push_char(out, c);
            assert(final(out)@ =~= old(out)@ + esc_char(c));
        }
    }
}

/// Appends the escaped form of a text.
pub fn escape_into(s: &str, out: &mut String)
    ensures
        final(out)@ == old(out)@ + escape(s@),
{
    let n = s.unicode_len();
    let mut k: usize = 0;
    while k < n
        invariant
            0 <= k <= n,
            n == s@.len(),
            out@ == old(out)@ + escape(s@.subrange(0, k as int)),
        decreases n - k,
    {
        let c = s.get_char(k);
        push_esc_char(c, out);
        proof {
            let pre = s@.subrange(0, k as int);
            let cur = s@.subrange(0, k as int + 1);
            assert(cur =~= pre + seq![s@[k as int]]);
            lemma_escape_append(pre, seq![s@[k as int]]);
            lemma_escape_single(s@[k as int]);
            assert(out@ =~= old(out)@ + escape(cur));
        }
        k = k + 1;
    }
    assert(s@.subrange(0, n as int) =~= s@);
}

// ---------------------------------------------------------------------------
// Parsing quoted string bodies
// ---------------------------------------------------------------------------

/// Parses the body of a quoted string starting at `i` (just after the opening
/// quote), up to and including the closing quote. Accepts the escapes that
/// [`esc_char`] writes: `\"`, `\\`, and `\u00xx` for a control character.
pub open spec fn parse_string_body_at(s: Seq<char>, i: int) -> Option<(Seq<char>, int)>
    decreases s.len() - i
        when 0 <= i <= s.len()
{
    if i >= s.len() {
        None
    } else if s[i] == '"' {
        Some((Seq::empty(), i + 1))
    } else if s[i] == '\\' {
        if i + 1 < s.len() && (s[i + 1] == '"' || s[i + 1] == '\\') {
            match parse_string_body_at(s, i + 2) {
                Some(p) => Some((seq![s[i + 1]] + p.0, p.1)),
                None => None,
            }
        } else if i + 5 < s.len() && s[i + 1] == 'u' && s[i + 2] == '0' && s[i + 3] == '0'
            && is_hex(s[i + 4]) && is_hex(s[i + 5]) && hex_val(s[i + 4]) * 16 + hex_val(s[i + 5])
            < 32 {
            match parse_string_body_at(s, i + 6) {
                Some(p) => Some(
                    (seq![((hex_val(s[i + 4]) * 16 + hex_val(s[i + 5])) as u32) as char] + p.0, p.1),
                ),
                None => None,
            }
        } else {
            None
        }
    } else {
        match parse_string_body_at(s, i + 1) {
            Some(p) => Some((seq![s[i]] + p.0, p.1)),
            None => None,
        }
    }
}

/// Executable quoted-string parser; returns what [`parse_string_body_at`]
/// says.
pub fn parse_jstring_body(s: &str, i: usize) -> (r: Option<(String, usize)>)
    requires
        i <= s@.len(),
    ensures
        match parse_string_body_at(s@, i as int) {
            Some(p) => r matches Some(q) && q.0@ == p.0 && q.1 as int == p.1,
            None => r is None,
        },
    decreases s@.len() - i,
{
    let n = s.unicode_len();
    if i >= n {
        return None;
    }
    let c = s.get_char(i);
    if c == '"' {
        Some((String::new(), i + 1))
    } else if c == '\\' {
        if i + 1 < n {
            let c1 = s.get_char(i + 1);
            if c1 == '"' || c1 == '\\' {
                match parse_jstring_body(s, i + 2) {
                    None => None,
                    Some((tail, j)) => {
                        let mut out = String::new();
                        push_char(&mut out, c1);
                        out.append(tail.as_str());
                        assert(out@ =~= seq![s@[i as int + 1]] + tail@);
                        Some((out, j))
                    },
                }
            } else if c1 == 'u' && n - i > 5 {
                let c2 = s.get_char(i + 2);
                let c3 = s.get_char(i + 3);
                let c4 = s.get_char(i + 4);
                let c5 = s.get_char(i + 5);
                if c2 == '0' && c3 == '0' && is_hex_char(c4) && is_hex_char(c5) {
                    let v = char_to_hex(c4) * 16 + char_to_hex(c5);
                    if v < 32 {
                        match parse_jstring_body(s, i + 6) {
                            None => None,
                            Some((tail, j)) => {
                                let ch = (v as u8) as char;
                                let mut out = String::new();
                                push_char(&mut out, ch);
                                out.append(tail.as_str());
                                assert(out@ =~= seq![ch] + tail@);
                                Some((out, j))
                            },
                        }
                    } else {
                        None
                    }
                } else {
                    None
                }
            } else {
                None
            }
        } else {
            None
        }
    } else {
        match parse_jstring_body(s, i + 1) {
            None => None,
            Some((tail, j)) => {
                let mut out = String::new();
                push_char(&mut out, c);
                out.append(tail.as_str());
                assert(out@ =~= seq![s@[i as int]] + tail@);
                Some((out, j))
            },
        }
    }
}

/// A successful string-body parse moves the cursor forward, at most to the
/// end.
pub proof fn lemma_parse_string_body_bounds(s: Seq<char>, i: int)
    requires
        0 <= i <= s.len(),
    ensures
        parse_string_body_at(s, i) matches Some(p) ==> i < p.1 <= s.len(),
    decreases s.len() - i,
{
    if i < s.len() {
        if s[i] == '"' {
        } else if s[i] == '\\' {
            if i + 1 < s.len() && (s[i + 1] == '"' || s[i + 1] == '\\') {
                lemma_parse_string_body_bounds(s, i + 2);
            } else if i + 5 < s.len() && s[i + 1] == 'u' && s[i + 2] == '0' && s[i + 3] == '0'
                && is_hex(s[i + 4]) && is_hex(s[i + 5]) && hex_val(s[i + 4]) * 16 + hex_val(
                s[i + 5],
            ) < 32 {
                lemma_parse_string_body_bounds(s, i + 6);
            }
        } else {
            lemma_parse_string_body_bounds(s, i + 1);
        }
    }
}

/// A canonical escaped string parses back to its text: if the text at `i` is
/// `escape(v)` followed by the closing quote, the parser yields exactly `v`
/// and stops right after that quote.
pub proof fn lemma_parse_escape(s: Seq<char>, i: int, v: Seq<char>, t: Seq<char>)
    requires
        0 <= i <= s.len(),
        s.subrange(i, s.len() as int) == escape(v) + seq!['"'] + t,
    ensures
        parse_string_body_at(s, i) == Some((v, i + escape(v).len() + 1)),
    decreases v.len(),
{
    let tail = s.subrange(i, s.len() as int);
    assert(tail.len() == s.len() - i);
    assert((escape(v) + seq!['"'] + t).len() == escape(v).len() + 1 + t.len());
    if v.len() == 0 {
        assert(escape(v) =~= Seq::<char>::empty());
        assert(tail[0] == '"');
        assert(s[i] == '"');
        assert(Seq::<char>::empty() =~= v);
    } else {
        let c = v[0];
        let v1 = v.drop_first();
        assert(escape(v) == esc_char(c) + escape(v1));
        let k = esc_char(c).len() as int;
        assert forall|m: int| 0 <= m < k implies tail[m] == esc_char(c)[m] by {
            assert((escape(v) + seq!['"'] + t)[m] == esc_char(c)[m]);
        }
        assert forall|m: int| 0 <= m < k implies s[i + m] == esc_char(c)[m] by {
            assert(tail[m] == s[i + m]);
        }
        assert(s.subrange(i + k, s.len() as int) =~= escape(v1) + seq!['"'] + t) by {
            assert forall|m: int| 0 <= m < s.len() - i - k implies s.subrange(
                i + k,
                s.len() as int,
            )[m] == (escape(v1) + seq!['"'] + t)[m] by {
                assert(tail[k + m] == s[i + k + m]);
                assert((escape(v) + seq!['"'] + t)[k + m] == (escape(v1) + seq!['"'] + t)[m]);
            }
        }
        lemma_parse_escape(s, i + k, v1, t);
        assert(seq![c] + v1 =~= v);
        if c == '"' {
            assert(s[i] == '\\');
            assert(s[i + 1] == '"');
        } else if c == '\\' {
            assert(s[i] == '\\');
            assert(s[i + 1] == '\\');
        } else if (c as u32) < 32 {
            let u = c as u32;
            assert(s[i] == '\\');
            assert(s[i + 1] == 'u');
            assert(s[i + 2] == '0');
            assert(s[i + 3] == '0');
            assert(s[i + 4] == hex_char((u / 16) as int));
            assert(s[i + 5] == hex_char((u % 16) as int));
            lemma_hex_roundtrip((u / 16) as int);
            lemma_hex_roundtrip((u % 16) as int);
            vstd::arithmetic::div_mod::lemma_fundamental_div_mod(u as int, 16);
            assert(hex_val(s[i + 4]) * 16 + hex_val(s[i + 5]) == u);
            vstd::utf8::char_u32_cast(c, u);
            assert(((hex_val(s[i + 4]) * 16 + hex_val(s[i + 5])) as u32) as char == c);
        } else {
            assert(s[i] == c);
        }
    }
}

/// Character-for-character string equality.
pub fn str_eq(a: &str, b: &str) -> (r: bool)
    ensures
        r == (a@ == b@),
{
    let n = a.unicode_len();
    if n != b.unicode_len() {
        return false;
    }
    let m = match_lit(a, 0, b);
    proof {
        if match_at(a@, 0, b@) {
            assert(a@.subrange(0, b@.len() as int) =~= a@);
        }
        if a@ == b@ {
            assert(a@.subrange(0, b@.len() as int) =~= b@);
        }
    }
    m
}

/// Executable form of [`digit_run_end`].
pub fn digit_run_scan(s: &str, i: usize) -> (e: usize)
    requires
        i <= s@.len(),
    ensures
        e as int == digit_run_end(s@, i as int),
        i <= e <= s@.len(),
    decreases s@.len() - i,
{
    proof {
        lemma_digit_run_end(s@, i as int);
    }
    if i < s.unicode_len() && is_digit_char(s.get_char(i)) {
        digit_run_scan(s, i + 1)
    } else {
        i
    }
}

/// Dropping a known head from the rest of the text shifts the cursor past it.
pub proof fn lemma_suffix_shift(s: Seq<char>, i: int, a: Seq<char>, rest: Seq<char>)
    requires
        0 <= i <= s.len(),
        s.subrange(i, s.len() as int) == a + rest,
    ensures
        i + a.len() <= s.len(),
        s.subrange(i + a.len(), s.len() as int) == rest,
{
    assert(s.subrange(i, s.len() as int).len() == s.len() - i);
    assert((a + rest).len() == a.len() + rest.len());
    assert(s.subrange(i + a.len(), s.len() as int) =~= rest) by {
        assert forall|m: int| 0 <= m < rest.len() implies s.subrange(
            i + a.len(),
            s.len() as int,
        )[m] == rest[m] by {
            assert(s.subrange(i, s.len() as int)[a.len() + m] == s[i + a.len() + m]);
            assert((a + rest)[a.len() + m] == rest[m]);
        }
    }
}

// ---------------------------------------------------------------------------
// Whitespace
// ---------------------------------------------------------------------------

/// True of the four whitespace characters that may separate frame tokens.
pub open spec fn is_ws(c: char) -> bool {
    c == ' ' || c == '\t' || c == '\n' || c == '\r'
}

/// The first index at or after `i` that does not hold whitespace.
pub open spec fn ws_end(s: Seq<char>, i: int) -> int
    decreases s.len() - i
        when 0 <= i <= s.len()
{
    if i < s.len() && is_ws(s[i]) {
        ws_end(s, i + 1)
    } else {
        i
    }
}

/// `ws_end` stays within the text.
pub proof fn lemma_ws_end(s: Seq<char>, i: int)
    requires
        0 <= i <= s.len(),
    ensures
        i <= ws_end(s, i) <= s.len(),
    decreases s.len() - i,
{
    if i < s.len() && is_ws(s[i]) {
        lemma_ws_end(s, i + 1);
    }
}

/// Advances the cursor past whitespace; returns what [`ws_end`] says.
pub fn skip_ws(s: &str, i: usize) -> (j: usize)
    requires
        i <= s@.len(),
    ensures
        j as int == ws_end(s@, i as int),
        i <= j <= s@.len(),
    decreases s@.len() - i,
{
    proof {
        lemma_ws_end(s@, i as int);
    }
    if i < s.unicode_len() {
        let c = s.get_char(i);
        if c == ' ' || c == '\t' || c == '\n' || c == '\r' {
            return skip_ws(s, i + 1);
        }
    }
    i
}

} // verus!
