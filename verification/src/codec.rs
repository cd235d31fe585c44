//! The canonical JSON codec for snapshots.
//!
//! A snapshot is persisted as one JSON object with exactly the keys
//! `last_item_id`, `epics` and `stories`; map keys are the decimal form of
//! the id, entries are emitted in ascending id order, and strings escape only
//! what must be escaped (`"`, `\`, and control characters as `\u00..`). The
//! decoder is strict: it accepts exactly this canonical form and rejects
//! everything else, which is what makes decoding the inverse of encoding
//! ([`lemma_encode_decode_round_trip`]).

use crate::id_map::IdMap;
use crate::models::{DBState, Epic, EpicView, Status, Story, StoryView};
use vstd::prelude::*;

verus! {

/// Whether `c` is a decimal digit.
pub open spec fn is_digit(c: char) -> bool {
    48 <= c as u32 <= 57
}

/// The value of a decimal digit.
pub open spec fn digit_val(c: char) -> nat {
    (c as u32 - 48) as nat
}

/// The digit with value `d` (for `d < 10`).
pub open spec fn digit_char(d: nat) -> char {
    if d == 0 { '0' }
    else if d == 1 { '1' }
    else if d == 2 { '2' }
    else if d == 3 { '3' }
    else if d == 4 { '4' }
    else if d == 5 { '5' }
    else if d == 6 { '6' }
    else if d == 7 { '7' }
    else if d == 8 { '8' }
    else { '9' }
}

/// The canonical decimal form of `n`: no sign, no leading zero.
pub open spec fn dec_digits(n: nat) -> Seq<char>
    decreases n,
{
    if n < 10 {
        seq![digit_char(n)]
    } else {
        dec_digits(n / 10).push(digit_char(n % 10))
    }
}

/// Every character of a canonical decimal is a digit, there is at least one,
/// and only zero itself starts with the zero digit.
pub proof fn lemma_dec_digits_shape(n: nat)
    ensures
        dec_digits(n).len() >= 1,
        forall|t: int| 0 <= t < dec_digits(n).len() ==> is_digit(#[trigger] dec_digits(n)[t]),
        n > 0 ==> dec_digits(n)[0] != '0',
        digit_val(digit_char(n % 10)) == n % 10,
    decreases n,
{
    if n >= 10 {
        lemma_dec_digits_shape(n / 10);
        assert(forall|t: int|
            0 <= t < dec_digits(n / 10).len() ==> dec_digits(n)[t] == dec_digits(n / 10)[t]);
    }
}

/// Ten to the `k`.
pub open spec fn pow10(k: nat) -> nat
    decreases k,
{
    if k == 0 {
        1
    } else {
        10 * pow10((k - 1) as nat)
    }
}

/// Consumes the maximal digit run from position `i`, folding it onto `acc`;
/// returns the folded value and the first position after the run.
pub open spec fn parse_digits(s: Seq<char>, i: int, acc: nat) -> (nat, int)
    decreases s.len() - i,
{
    if 0 <= i < s.len() && is_digit(s[i]) {
        parse_digits(s, i + 1, acc * 10 + digit_val(s[i]))
    } else {
        (acc, i)
    }
}

/// Parses a canonical decimal `u32` at position `i`: at least one digit, no
/// leading zero, value within range.
pub open spec fn parse_u32(s: Seq<char>, i: int) -> Option<(u32, int)> {
    if 0 <= i < s.len() && is_digit(s[i]) {
        if s[i] == '0' {
            Some((0u32, i + 1))
        } else {
            let (v, j) = parse_digits(s, i, 0);
            if v <= u32::MAX {
                Some(((v as u32), j))
            } else {
                None
            }
        }
    } else {
        None
    }
}

/// A digit run never shrinks the accumulated value and only moves forward.
pub proof fn lemma_parse_digits_bounds(s: Seq<char>, i: int, acc: nat)
    ensures
        parse_digits(s, i, acc).0 >= acc,
        parse_digits(s, i, acc).1 >= i,
        parse_digits(s, i, acc).1 <= s.len() || parse_digits(s, i, acc).1 == i,
    decreases s.len() - i,
{
    if 0 <= i < s.len() && is_digit(s[i]) {
        lemma_parse_digits_bounds(s, i + 1, acc * 10 + digit_val(s[i]));
        assert(acc * 10 + digit_val(s[i]) >= acc) by (nonlinear_arith);
    }
}

/// A successful number parse consumes at least one character and stays in
/// bounds.
pub proof fn lemma_parse_u32_advances(s: Seq<char>, i: int)
    ensures
        parse_u32(s, i) matches Some(r) ==> i < r.1 <= s.len(),
{
    if 0 <= i < s.len() && is_digit(s[i]) && s[i] != '0' {
        lemma_parse_digits_bounds(s, i + 1, digit_val(s[i]));
    }
}

/// Running a digit run through the fold multiplies the accumulator past it.
proof fn lemma_parse_digits_app(s: Seq<char>, i: int, n: nat, acc: nat)
    requires
        0 <= i,
        i + dec_digits(n).len() <= s.len(),
        forall|t: int| 0 <= t < dec_digits(n).len() ==> s[i + t] == #[trigger] dec_digits(n)[t],
    ensures
        parse_digits(s, i, acc) == parse_digits(
            s,
            i + dec_digits(n).len(),
            acc * pow10(dec_digits(n).len() as nat) + n,
        ),
    decreases n,
{
    lemma_dec_digits_shape(n);
    if n < 10 {
        assert(s[i] == digit_char(n)) by {
            assert(s[i + 0] == dec_digits(n)[0]);
        }
        assert(digit_val(digit_char(n)) == n);
        assert(pow10(0) == 1);
        assert(pow10(1) == 10);
    } else {
        let d = dec_digits(n / 10);
        let k = d.len();
        lemma_dec_digits_shape(n / 10);
        assert(forall|t: int| 0 <= t < k ==> dec_digits(n)[t] == d[t]);
        lemma_parse_digits_app(s, i, n / 10, acc);
        assert(s[i + k] == dec_digits(n)[k as int]);
        assert(dec_digits(n)[k as int] == digit_char(n % 10));
        assert(digit_val(digit_char(n % 10)) == n % 10);
        assert(parse_digits(s, i + k, acc * pow10(k as nat) + n / 10) == parse_digits(
            s,
            i + k + 1,
            (acc * pow10(k as nat) + n / 10) * 10 + n % 10,
        ));
        assert((acc * pow10(k as nat) + n / 10) * 10 + n % 10 == acc * (10 * pow10(k as nat)) + n)
            by (nonlinear_arith)
            requires n >= 10 && (n / 10) * 10 + n % 10 == n,
        ;
        assert(pow10(k as nat + 1) == 10 * pow10(k as nat));
        assert(dec_digits(n).len() == k + 1);
    }
}

/// Parsing back what `dec_digits` wrote yields the same number, provided no
/// further digit follows the run.
pub proof fn lemma_parse_back_u32(s: Seq<char>, i: int, n: u32)
    requires
        0 <= i,
        i + dec_digits(n as nat).len() <= s.len(),
        forall|t: int|
            0 <= t < dec_digits(n as nat).len() ==> s[i + t] == #[trigger] dec_digits(n as nat)[t],
        i + dec_digits(n as nat).len() == s.len() || !is_digit(
            s[i + dec_digits(n as nat).len()],
        ),
    ensures
        parse_u32(s, i) == Some((n, i + dec_digits(n as nat).len())),
{
    lemma_dec_digits_shape(n as nat);
    let len = dec_digits(n as nat).len();
    assert(s[i] == dec_digits(n as nat)[0]);
    if n == 0 {
        assert(s[i] == '0');
    } else {
        assert(s[i] != '0');
        lemma_parse_digits_app(s, i, n as nat, 0);
        assert(0 * pow10(len as nat) + n as nat == n as nat) by (nonlinear_arith);
        assert(parse_digits(s, i + len, n as nat) == (n as nat, i + len));
    }
}

/// Whether `c` is a lowercase hexadecimal digit.
pub open spec fn is_hex(c: char) -> bool {
    is_digit(c) || 97 <= c as u32 <= 102
}

/// The value of a lowercase hexadecimal digit.
pub open spec fn hex_val(c: char) -> nat {
    if is_digit(c) {
        digit_val(c)
    } else {
        (c as u32 - 87) as nat
    }
}

/// The lowercase hexadecimal digit with value `d` (for `d < 16`).
pub open spec fn hex_char(d: nat) -> char {
    if d < 10 {
        digit_char(d)
    } else if d == 10 { 'a' }
    else if d == 11 { 'b' }
    else if d == 12 { 'c' }
    else if d == 13 { 'd' }
    else if d == 14 { 'e' }
    else { 'f' }
}

/// The character with code `n` (for codes below 128).
pub open spec fn code_char(n: nat) -> char {
    n as char
}

/// How one character is written inside a JSON string: quote and backslash
/// get a backslash escape, control characters a `\u00..` escape, everything
/// else stands as itself.
pub open spec fn esc_char(c: char) -> Seq<char> {
    if c == '"' {
        seq!['\\', '"']
    } else if c == '\\' {
        seq!['\\', '\\']
    } else if (c as u32) < 32 {
        seq!['\\', 'u', '0', '0', hex_char((c as u32 / 16) as nat), hex_char((c as u32 % 16) as nat)]
    } else {
        seq![c]
    }
}

/// A whole character sequence, escaped.
pub open spec fn esc_str(s: Seq<char>) -> Seq<char>
    decreases s.len(),
{
    if s.len() == 0 {
        Seq::empty()
    } else {
        esc_char(s[0]) + esc_str(s.subrange(1, s.len() as int))
    }
}

/// Escaping works one appended character at a time.
pub proof fn lemma_esc_str_push(s: Seq<char>, c: char)
    ensures
        esc_str(s.push(c)) == esc_str(s) + esc_char(c),
    decreases s.len(),
{
    if s.len() == 0 {
        assert(s.push(c)[0] == c);
        assert(s.push(c).subrange(1, 1) =~= Seq::<char>::empty());
        assert(esc_str(Seq::<char>::empty()) == Seq::<char>::empty());
        assert(esc_str(s.push(c)) == esc_char(c) + esc_str(s.push(c).subrange(1, 1)));
        assert(esc_str(s.push(c)) =~= esc_str(s) + esc_char(c));
    } else {
        assert(s.push(c).subrange(1, s.len() as int + 1) =~= s.subrange(1, s.len() as int).push(c));
        lemma_esc_str_push(s.subrange(1, s.len() as int), c);
        assert(esc_char(s.push(c)[0]) + (esc_str(s.subrange(1, s.len() as int)) + esc_char(c))
            =~= esc_str(s) + esc_char(c));
    }
}

/// A string value as written: quoted and escaped.
pub open spec fn enc_string(s: Seq<char>) -> Seq<char> {
    seq!['"'] + esc_str(s) + seq!['"']
}

/// Reads the escaped body of a string up to its closing quote, appending the
/// unescaped characters to `acc`.
pub open spec fn parse_str_chars(s: Seq<char>, i: int, acc: Seq<char>) -> Option<(Seq<char>, int)>
    decreases s.len() - i,
{
    if i < 0 || i >= s.len() {
        None
    } else if s[i] == '"' {
        Some((acc, i + 1))
    } else if s[i] == '\\' {
        if i + 1 < s.len() && s[i + 1] == '"' {
            parse_str_chars(s, i + 2, acc.push('"'))
        } else if i + 1 < s.len() && s[i + 1] == '\\' {
            parse_str_chars(s, i + 2, acc.push('\\'))
        } else if i + 5 < s.len() && s[i + 1] == 'u' && s[i + 2] == '0' && s[i + 3] == '0' && is_hex(
            s[i + 4],
        ) && is_hex(s[i + 5]) && hex_val(s[i + 4]) * 16 + hex_val(s[i + 5]) < 32 {
            parse_str_chars(s, i + 6, acc.push(code_char(hex_val(s[i + 4]) * 16 + hex_val(s[i + 5]))))
        } else {
            None
        }
    } else if (s[i] as u32) < 32 {
        None
    } else {
        parse_str_chars(s, i + 1, acc.push(s[i]))
    }
}

/// Parses a quoted, escaped string value at position `i`.
pub open spec fn parse_string(s: Seq<char>, i: int) -> Option<(Seq<char>, int)> {
    if 0 <= i < s.len() && s[i] == '"' {
        parse_str_chars(s, i + 1, Seq::empty())
    } else {
        None
    }
}

/// A successful string parse moves forward and stays in bounds.
pub proof fn lemma_parse_str_chars_bounds(s: Seq<char>, i: int, acc: Seq<char>)
    ensures
        parse_str_chars(s, i, acc) matches Some(r) ==> i < r.1 <= s.len(),
    decreases s.len() - i,
{
    if 0 <= i < s.len() && s[i] != '"' {
        if s[i] == '\\' {
            if i + 1 < s.len() && s[i + 1] == '"' {
                lemma_parse_str_chars_bounds(s, i + 2, acc.push('"'));
            } else if i + 1 < s.len() && s[i + 1] == '\\' {
                lemma_parse_str_chars_bounds(s, i + 2, acc.push('\\'));
            } else if i + 5 < s.len() {
                lemma_parse_str_chars_bounds(
                    s,
                    i + 6,
                    acc.push(code_char(hex_val(s[i + 4]) * 16 + hex_val(s[i + 5]))),
                );
            }
        } else {
            lemma_parse_str_chars_bounds(s, i + 1, acc.push(s[i]));
        }
    }
}

/// Parsing back an escaped body followed by the closing quote yields exactly
/// the original characters.
proof fn lemma_pb_str_chars(s: Seq<char>, i: int, v: Seq<char>, acc: Seq<char>)
    requires
        0 <= i,
        i + esc_str(v).len() + 1 <= s.len(),
        forall|t: int| 0 <= t < esc_str(v).len() ==> s[i + t] == #[trigger] esc_str(v)[t],
        s[i + esc_str(v).len()] == '"',
    ensures
        parse_str_chars(s, i, acc) == Some((acc + v, i + esc_str(v).len() + 1)),
    decreases v.len(),
{
    if v.len() == 0 {
        assert(s[i] == '"');
        assert(acc + v =~= acc);
    } else {
        let c = v[0];
        let rest = v.subrange(1, v.len() as int);
        let e = esc_char(c);
        assert(esc_str(v) == e + esc_str(rest));
        assert forall|t: int| 0 <= t < e.len() implies s[i + t] == e[t] by {
            assert(s[i + t] == esc_str(v)[t]);
            assert(esc_str(v)[t] == e[t]);
        }
        assert forall|t: int|
            0 <= t < esc_str(rest).len() implies s[i + e.len() + t] == #[trigger] esc_str(rest)[t] by {
            assert(s[i + e.len() + t] == esc_str(v)[e.len() + t]);
            assert(esc_str(v)[e.len() + t] == esc_str(rest)[t]);
        }
        assert(s[i + e.len() + esc_str(rest).len()] == '"');
        if c == '"' {
            assert(s[i] == '\\' && s[i + 1] == '"');
            lemma_pb_str_chars(s, i + 2, rest, acc.push(c));
        } else if c == '\\' {
            assert(s[i] == '\\' && s[i + 1] == '\\');
            lemma_pb_str_chars(s, i + 2, rest, acc.push(c));
        } else if (c as u32) < 32 {
            let hi = (c as u32 / 16) as nat;
            let lo = (c as u32 % 16) as nat;
            assert(s[i] == '\\' && s[i + 1] == 'u' && s[i + 2] == '0' && s[i + 3] == '0');
            assert(s[i + 4] == hex_char(hi) && s[i + 5] == hex_char(lo));
            assert(is_hex(hex_char(hi)) && hex_val(hex_char(hi)) == hi);
            assert(is_hex(hex_char(lo)) && hex_val(hex_char(lo)) == lo);
            assert(hi * 16 + lo == c as u32) by (nonlinear_arith)
                requires hi == (c as u32 / 16) as nat && lo == (c as u32 % 16) as nat && (c as u32) < 32,
            ;
            assert(code_char(hi * 16 + lo) == c) by {
                vstd::utf8::char_u32_cast(c, c as u32);
            }
            lemma_pb_str_chars(s, i + 6, rest, acc.push(c));
        } else {
            assert(s[i] == c) by {
                assert(s[i + 0] == e[0]);
            }
            lemma_pb_str_chars(s, i + 1, rest, acc.push(c));
        }
        assert(acc.push(c) + rest =~= acc + v);
    }
}

/// Parsing back an encoded string yields exactly the original value.
pub proof fn lemma_pb_string(s: Seq<char>, i: int, v: Seq<char>)
    requires
        0 <= i,
        i + enc_string(v).len() <= s.len(),
        forall|t: int| 0 <= t < enc_string(v).len() ==> s[i + t] == #[trigger] enc_string(v)[t],
    ensures
        parse_string(s, i) == Some((v, i + enc_string(v).len())),
{
    assert(s[i] == '"') by {
        assert(s[i + 0] == enc_string(v)[0]);
        assert(enc_string(v)[0] == '"');
    }
    assert(forall|t: int| 0 <= t < esc_str(v).len() ==> s[i + 1 + t] == #[trigger] esc_str(v)[t])
        by {
        assert(forall|t: int|
            0 <= t < esc_str(v).len() ==> enc_string(v)[1 + t] == #[trigger] esc_str(v)[t]);
    }
    assert(s[i + 1 + esc_str(v).len()] == '"') by {
        assert(enc_string(v)[1 + esc_str(v).len() as int] == '"');
    }
    lemma_pb_str_chars(s, i + 1, v, Seq::empty());
    assert(Seq::<char>::empty() + v =~= v);
}

/// Whether `w` occurs in `s` starting at position `i`.
pub open spec fn starts_with(s: Seq<char>, i: int, w: Seq<char>) -> bool {
    &&& 0 <= i
    &&& i + w.len() <= s.len()
    &&& forall|t: int| 0 <= t < w.len() ==> s[i + t] == #[trigger] w[t]
}

/// The tag under which a status is persisted.
pub open spec fn status_tag(st: Status) -> Seq<char> {
    match st {
        Status::Open => "Open"@,
        Status::InProgress => "InProgress"@,
        Status::Resolved => "Resolved"@,
        Status::Closed => "Closed"@,
    }
}

/// A status as written: its tag, quoted.
pub open spec fn enc_status(st: Status) -> Seq<char> {
    seq!['"'] + status_tag(st) + seq!['"']
}

/// Parses a status tag at position `i`.
pub open spec fn parse_status(s: Seq<char>, i: int) -> Option<(Status, int)> {
    if starts_with(s, i, enc_status(Status::Open)) {
        Some((Status::Open, i + enc_status(Status::Open).len()))
    } else if starts_with(s, i, enc_status(Status::InProgress)) {
        Some((Status::InProgress, i + enc_status(Status::InProgress).len()))
    } else if starts_with(s, i, enc_status(Status::Resolved)) {
        Some((Status::Resolved, i + enc_status(Status::Resolved).len()))
    } else if starts_with(s, i, enc_status(Status::Closed)) {
        Some((Status::Closed, i + enc_status(Status::Closed).len()))
    } else {
        None
    }
}

/// The four status tags start with four different characters.
proof fn lemma_status_tags()
    ensures
        status_tag(Status::Open).len() == 4 && status_tag(Status::Open)[0] == 'O',
        status_tag(Status::InProgress).len() == 10 && status_tag(Status::InProgress)[0] == 'I',
        status_tag(Status::Resolved).len() == 8 && status_tag(Status::Resolved)[0] == 'R',
        status_tag(Status::Closed).len() == 6 && status_tag(Status::Closed)[0] == 'C',
{
    reveal_strlit("Open");
    reveal_strlit("InProgress");
    reveal_strlit("Resolved");
    reveal_strlit("Closed");
}

/// Parsing back an encoded status yields exactly the original value.
pub proof fn lemma_pb_status(s: Seq<char>, i: int, st: Status)
    requires
        starts_with(s, i, enc_status(st)),
    ensures
        parse_status(s, i) == Some((st, i + enc_status(st).len())),
{
    lemma_status_tags();
    assert(s[i + 1] == status_tag(st)[0]) by {
        assert(enc_status(st)[1] == status_tag(st)[0]);
    }
    assert forall|st2: Status| st2 != st implies !starts_with(s, i, enc_status(st2)) by {
        if starts_with(s, i, enc_status(st2)) {
            assert(s[i + 1] == status_tag(st2)[0]) by {
                assert(enc_status(st2)[1] == status_tag(st2)[0]);
            }
        }
    }
}

/// The items of an id list: decimal, comma-separated.
pub open spec fn enc_id_items(l: Seq<u32>) -> Seq<char>
    decreases l.len(),
{
    if l.len() == 0 {
        Seq::empty()
    } else if l.len() == 1 {
        dec_digits(l[0] as nat)
    } else {
        dec_digits(l[0] as nat) + seq![','] + enc_id_items(l.subrange(1, l.len() as int))
    }
}

/// An id list as written: bracketed items.
pub open spec fn enc_id_list(l: Seq<u32>) -> Seq<char> {
    seq!['['] + enc_id_items(l) + seq![']']
}

/// Item encoding works one appended id at a time.
pub proof fn lemma_enc_id_items_push(l: Seq<u32>, x: u32)
    ensures
        enc_id_items(l.push(x)) == if l.len() == 0 {
            dec_digits(x as nat)
        } else {
            enc_id_items(l) + seq![','] + dec_digits(x as nat)
        },
    decreases l.len(),
{
    let p = l.push(x);
    if l.len() == 0 {
        assert(p.len() == 1 && p[0] == x);
    } else {
        assert(p.subrange(1, p.len() as int) =~= l.subrange(1, l.len() as int).push(x));
        lemma_enc_id_items_push(l.subrange(1, l.len() as int), x);
        if l.len() == 1 {
            assert(l.subrange(1, 1).len() == 0);
            assert(enc_id_items(p) =~= enc_id_items(l) + seq![','] + dec_digits(x as nat));
        } else {
            assert(enc_id_items(p) =~= enc_id_items(l) + seq![','] + dec_digits(x as nat));
        }
    }
}

/// Reads comma-separated ids up to the closing bracket, appending them to
/// `acc`.
pub open spec fn parse_ids_rest(s: Seq<char>, i: int, acc: Seq<u32>) -> Option<(Seq<u32>, int)>
    decreases s.len() - i,
    via parse_ids_rest_dec
{
    match parse_u32(s, i) {
        None => None,
        Some((v, j)) => {
            if j < s.len() && s[j] == ',' {
                parse_ids_rest(s, j + 1, acc.push(v))
            } else if j < s.len() && s[j] == ']' {
                Some((acc.push(v), j + 1))
            } else {
                None
            }
        },
    }
}

#[via_fn]
proof fn parse_ids_rest_dec(s: Seq<char>, i: int, acc: Seq<u32>) {
    lemma_parse_u32_advances(s, i);
}

/// Parses a bracketed id list at position `i`.
pub open spec fn parse_id_list(s: Seq<char>, i: int) -> Option<(Seq<u32>, int)> {
    if 0 <= i < s.len() && s[i] == '[' {
        if i + 1 < s.len() && s[i + 1] == ']' {
            Some((Seq::empty(), i + 2))
        } else {
            parse_ids_rest(s, i + 1, Seq::empty())
        }
    } else {
        None
    }
}

/// A successful id-list parse moves forward and stays in bounds.
pub proof fn lemma_parse_ids_rest_bounds(s: Seq<char>, i: int, acc: Seq<u32>)
    ensures
        parse_ids_rest(s, i, acc) matches Some(r) ==> i < r.1 <= s.len(),
    decreases s.len() - i,
{
    lemma_parse_u32_advances(s, i);
    match parse_u32(s, i) {
        Some(r) => {
            let (v, j) = r;
            if j < s.len() && s[j] == ',' {
                lemma_parse_ids_rest_bounds(s, j + 1, acc.push(v));
            }
        },
        None => {},
    }
}

/// Parsing back encoded items followed by the closing bracket yields exactly
/// the original ids.
proof fn lemma_pb_ids_rest(s: Seq<char>, i: int, l: Seq<u32>, acc: Seq<u32>)
    requires
        l.len() > 0,
        starts_with(s, i, enc_id_items(l) + seq![']']),
    ensures
        parse_ids_rest(s, i, acc) == Some((acc + l, i + enc_id_items(l).len() + 1)),
    decreases l.len(),
{
    let w = enc_id_items(l) + seq![']'];
    let d = dec_digits(l[0] as nat);
    lemma_dec_digits_shape(l[0] as nat);
    if l.len() == 1 {
        assert(forall|t: int| 0 <= t < d.len() ==> w[t] == d[t]);
        assert(forall|t: int| 0 <= t < d.len() ==> s[i + t] == d[t]);
        assert(s[i + d.len()] == ']') by {
            assert(w[d.len() as int] == ']');
        }
        lemma_parse_back_u32(s, i, l[0]);
        assert(acc + l =~= acc.push(l[0]));
    } else {
        let rest = l.subrange(1, l.len() as int);
        assert(enc_id_items(l) == d + seq![','] + enc_id_items(rest));
        assert(forall|t: int| 0 <= t < d.len() ==> w[t] == d[t]);
        assert(forall|t: int| 0 <= t < d.len() ==> s[i + t] == d[t]);
        assert(s[i + d.len()] == ',') by {
            assert(w[d.len() as int] == ',');
        }
        lemma_parse_back_u32(s, i, l[0]);
        let j = i + d.len() + 1;
        assert(starts_with(s, j, enc_id_items(rest) + seq![']'])) by {
            assert forall|t: int| 0 <= t < enc_id_items(rest).len() + 1 implies s[j + t]
                == (enc_id_items(rest) + seq![']'])[t] by {
                assert(s[j + t] == w[d.len() + 1 + t]);
                assert(w[d.len() + 1 + t] == (enc_id_items(rest) + seq![']'])[t]);
            }
        }
        lemma_pb_ids_rest(s, j, rest, acc.push(l[0]));
        assert(acc.push(l[0]) + rest =~= acc + l);
    }
}

/// Parsing back an encoded id list yields exactly the original ids.
pub proof fn lemma_pb_id_list(s: Seq<char>, i: int, l: Seq<u32>)
    requires
        starts_with(s, i, enc_id_list(l)),
    ensures
        parse_id_list(s, i) == Some((l, i + enc_id_list(l).len())),
{
    let w = enc_id_list(l);
    assert(s[i] == '[') by {
        assert(w[0] == '[');
    }
    if l.len() == 0 {
        assert(s[i + 1] == ']') by {
            assert(w[1] == ']');
        }
        assert(l =~= Seq::<u32>::empty());
    } else {
        lemma_dec_digits_shape(l[0] as nat);
        assert(enc_id_items(l)[0] == dec_digits(l[0] as nat)[0]) by {
            if l.len() > 1 {
                assert(enc_id_items(l) == dec_digits(l[0] as nat) + seq![','] + enc_id_items(
                    l.subrange(1, l.len() as int),
                ));
            }
        }
        assert(s[i + 1] == enc_id_items(l)[0]) by {
            assert(w[1] == enc_id_items(l)[0]);
        }
        assert(s[i + 1] != ']');
        assert(starts_with(s, i + 1, enc_id_items(l) + seq![']'])) by {
            assert forall|t: int| 0 <= t < enc_id_items(l).len() + 1 implies s[i + 1 + t]
                == (enc_id_items(l) + seq![']'])[t] by {
                assert(s[i + 1 + t] == w[1 + t]);
                assert(w[1 + t] == (enc_id_items(l) + seq![']'])[t]);
            }
        }
        lemma_pb_ids_rest(s, i + 1, l, Seq::empty());
        assert(Seq::<u32>::empty() + l =~= l);
    }
}

/// A match against a concatenation is a match against both parts.
proof fn lemma_starts_with_concat(s: Seq<char>, i: int, a: Seq<char>, b: Seq<char>)
    requires
        starts_with(s, i, a + b),
    ensures
        starts_with(s, i, a),
        starts_with(s, i + a.len(), b),
{
    assert forall|t: int| 0 <= t < a.len() implies s[i + t] == a[t] by {
        assert(s[i + t] == (a + b)[t]);
    }
    assert forall|t: int| 0 <= t < b.len() implies s[i + a.len() + t] == b[t] by {
        assert(s[i + a.len() + t] == (a + b)[a.len() + t]);
    }
}

/// A match against a one-character word pins that character down.
proof fn lemma_starts_with_char(s: Seq<char>, i: int, c: char)
    requires
        starts_with(s, i, seq![c]),
    ensures
        s[i] == c,
{
    assert(s[i + 0] == seq![c][0]);
}

/// A match against a two-character word pins both characters down.
proof fn lemma_starts_with_2chars(s: Seq<char>, i: int, c0: char, c1: char)
    requires
        starts_with(s, i, seq![c0, c1]),
    ensures
        s[i] == c0,
        s[i + 1] == c1,
{
    assert(s[i + 0] == seq![c0, c1][0]);
    assert(s[i + 1] == seq![c0, c1][1]);
}

/// The opening brace and key of an object's `name` field.
pub open spec fn lit_name() -> Seq<char> {
    "{\"name\":"@
}

/// The comma and key of the `description` field.
pub open spec fn lit_description() -> Seq<char> {
    ",\"description\":"@
}

/// The comma and key of the `status` field.
pub open spec fn lit_status() -> Seq<char> {
    ",\"status\":"@
}

/// The comma and key of the `stories` field (of an epic or of the snapshot).
pub open spec fn lit_stories() -> Seq<char> {
    ",\"stories\":"@
}

/// The opening brace and key of the snapshot's `last_item_id` field.
pub open spec fn lit_last_item_id() -> Seq<char> {
    "{\"last_item_id\":"@
}

/// The comma and key of the snapshot's `epics` field.
pub open spec fn lit_epics() -> Seq<char> {
    ",\"epics\":"@
}

/// A story as written: an object with its three fields in fixed order.
pub open spec fn enc_story(v: StoryView) -> Seq<char> {
    lit_name() + (enc_string(v.name) + (lit_description() + (enc_string(v.description) + (
    lit_status() + (enc_status(v.status) + seq!['}'])))))
}

/// An epic as written: an object with its four fields in fixed order.
pub open spec fn enc_epic(v: EpicView) -> Seq<char> {
    lit_name() + (enc_string(v.name) + (lit_description() + (enc_string(v.description) + (
    lit_status() + (enc_status(v.status) + (lit_stories() + (enc_id_list(v.stories)
        + seq!['}'])))))))
}

/// Moves past `w` at position `i`, when it is there.
pub open spec fn expect(s: Seq<char>, i: int, w: Seq<char>) -> Option<int> {
    if starts_with(s, i, w) {
        Some(i + w.len())
    } else {
        None
    }
}

/// Parses a story object at position `i`.
pub open spec fn parse_story_obj(s: Seq<char>, i: int) -> Option<(StoryView, int)> {
    match expect(s, i, lit_name()) {
        None => None,
        Some(i1) => match parse_string(s, i1) {
            None => None,
            Some((name, i2)) => match expect(s, i2, lit_description()) {
                None => None,
                Some(i3) => match parse_string(s, i3) {
                    None => None,
                    Some((description, i4)) => match expect(s, i4, lit_status()) {
                        None => None,
                        Some(i5) => match parse_status(s, i5) {
                            None => None,
                            Some((status, i6)) => if i6 < s.len() && s[i6] == '}' {
                                Some((StoryView { name, description, status }, i6 + 1))
                            } else {
                                None
                            },
                        },
                    },
                },
            },
        },
    }
}

/// Parses an epic object at position `i`.
pub open spec fn parse_epic_obj(s: Seq<char>, i: int) -> Option<(EpicView, int)> {
    match expect(s, i, lit_name()) {
        None => None,
        Some(i1) => match parse_string(s, i1) {
            None => None,
            Some((name, i2)) => match expect(s, i2, lit_description()) {
                None => None,
                Some(i3) => match parse_string(s, i3) {
                    None => None,
                    Some((description, i4)) => match expect(s, i4, lit_status()) {
                        None => None,
                        Some(i5) => match parse_status(s, i5) {
                            None => None,
                            Some((status, i6)) => match expect(s, i6, lit_stories()) {
                                None => None,
                                Some(i7) => match parse_id_list(s, i7) {
                                    None => None,
                                    Some((stories, i8)) => if i8 < s.len() && s[i8] == '}' {
                                        Some(
                                            (
                                                EpicView { name, description, status, stories },
                                                i8 + 1,
                                            ),
                                        )
                                    } else {
                                        None
                                    },
                                },
                            },
                        },
                    },
                },
            },
        },
    }
}

/// A successful story-object parse moves forward and stays in bounds.
pub proof fn lemma_parse_story_obj_bounds(s: Seq<char>, i: int)
    ensures
        parse_story_obj(s, i) matches Some(r) ==> i < r.1 <= s.len(),
{
    if parse_story_obj(s, i) is Some {
        let i1 = expect(s, i, lit_name()).unwrap();
        lemma_parse_str_chars_bounds(s, i1 + 1, Seq::empty());
        let i2 = parse_string(s, i1).unwrap().1;
        let i3 = expect(s, i2, lit_description()).unwrap();
        lemma_parse_str_chars_bounds(s, i3 + 1, Seq::empty());
    }
}

/// A successful epic-object parse moves forward and stays in bounds.
pub proof fn lemma_parse_epic_obj_bounds(s: Seq<char>, i: int)
    ensures
        parse_epic_obj(s, i) matches Some(r) ==> i < r.1 <= s.len(),
{
    if parse_epic_obj(s, i) is Some {
        let i1 = expect(s, i, lit_name()).unwrap();
        lemma_parse_str_chars_bounds(s, i1 + 1, Seq::empty());
        let i2 = parse_string(s, i1).unwrap().1;
        let i3 = expect(s, i2, lit_description()).unwrap();
        lemma_parse_str_chars_bounds(s, i3 + 1, Seq::empty());
        let i4 = parse_string(s, i3).unwrap().1;
        let i5 = expect(s, i4, lit_status()).unwrap();
        let i6 = parse_status(s, i5).unwrap().1;
        let i7 = expect(s, i6, lit_stories()).unwrap();
        lemma_parse_ids_rest_bounds(s, i7 + 1, Seq::empty());
    }
}

/// A map entry as written: the id as a quoted decimal key, then the value.
pub open spec fn enc_epic_entry(k: u32, v: EpicView) -> Seq<char> {
    seq!['"'] + (dec_digits(k as nat) + (seq!['"', ':'] + enc_epic(v)))
}

/// A story-map entry as written.
pub open spec fn enc_story_entry(k: u32, v: StoryView) -> Seq<char> {
    seq!['"'] + (dec_digits(k as nat) + (seq!['"', ':'] + enc_story(v)))
}

/// The items of the epic map: entries in the stored (ascending) key order,
/// comma-separated.
pub open spec fn enc_epic_items(l: Seq<(u32, EpicView)>) -> Seq<char>
    decreases l.len(),
{
    if l.len() == 0 {
        Seq::empty()
    } else if l.len() == 1 {
        enc_epic_entry(l[0].0, l[0].1)
    } else {
        enc_epic_entry(l[0].0, l[0].1) + seq![','] + enc_epic_items(l.subrange(1, l.len() as int))
    }
}

/// The items of the story map.
pub open spec fn enc_story_items(l: Seq<(u32, StoryView)>) -> Seq<char>
    decreases l.len(),
{
    if l.len() == 0 {
        Seq::empty()
    } else if l.len() == 1 {
        enc_story_entry(l[0].0, l[0].1)
    } else {
        enc_story_entry(l[0].0, l[0].1) + seq![','] + enc_story_items(l.subrange(1, l.len() as int))
    }
}

/// An id-keyed map as written: braced items.
pub open spec fn enc_epic_map(l: Seq<(u32, EpicView)>) -> Seq<char> {
    seq!['{'] + enc_epic_items(l) + seq!['}']
}

/// The story map as written.
pub open spec fn enc_story_map(l: Seq<(u32, StoryView)>) -> Seq<char> {
    seq!['{'] + enc_story_items(l) + seq!['}']
}

/// Item encoding works one appended entry at a time.
pub proof fn lemma_enc_epic_items_push(l: Seq<(u32, EpicView)>, k: u32, v: EpicView)
    ensures
        enc_epic_items(l.push((k, v))) == if l.len() == 0 {
            enc_epic_entry(k, v)
        } else {
            enc_epic_items(l) + seq![','] + enc_epic_entry(k, v)
        },
    decreases l.len(),
{
    let p = l.push((k, v));
    if l.len() == 0 {
        assert(p.len() == 1 && p[0] == (k, v));
    } else {
        assert(p.subrange(1, p.len() as int) =~= l.subrange(1, l.len() as int).push((k, v)));
        lemma_enc_epic_items_push(l.subrange(1, l.len() as int), k, v);
        if l.len() == 1 {
            assert(l.subrange(1, 1).len() == 0);
            assert(enc_epic_items(p) =~= enc_epic_items(l) + seq![','] + enc_epic_entry(k, v));
        } else {
            assert(enc_epic_items(p) =~= enc_epic_items(l) + seq![','] + enc_epic_entry(k, v));
        }
    }
}

/// Item encoding works one appended entry at a time.
pub proof fn lemma_enc_story_items_push(l: Seq<(u32, StoryView)>, k: u32, v: StoryView)
    ensures
        enc_story_items(l.push((k, v))) == if l.len() == 0 {
            enc_story_entry(k, v)
        } else {
            enc_story_items(l) + seq![','] + enc_story_entry(k, v)
        },
    decreases l.len(),
{
    let p = l.push((k, v));
    if l.len() == 0 {
        assert(p.len() == 1 && p[0] == (k, v));
    } else {
        assert(p.subrange(1, p.len() as int) =~= l.subrange(1, l.len() as int).push((k, v)));
        lemma_enc_story_items_push(l.subrange(1, l.len() as int), k, v);
        if l.len() == 1 {
            assert(l.subrange(1, 1).len() == 0);
            assert(enc_story_items(p) =~= enc_story_items(l) + seq![','] + enc_story_entry(k, v));
        } else {
            assert(enc_story_items(p) =~= enc_story_items(l) + seq![','] + enc_story_entry(k, v));
        }
    }
}

/// Parses one `"id":epic` entry at position `i`.
pub open spec fn parse_epic_entry(s: Seq<char>, i: int) -> Option<((u32, EpicView), int)> {
    if 0 <= i < s.len() && s[i] == '"' {
        match parse_u32(s, i + 1) {
            None => None,
            Some((k, j)) => if j + 1 < s.len() && s[j] == '"' && s[j + 1] == ':' {
                match parse_epic_obj(s, j + 2) {
                    None => None,
                    Some((v, j2)) => Some(((k, v), j2)),
                }
            } else {
                None
            },
        }
    } else {
        None
    }
}

/// Parses one `"id":story` entry at position `i`.
pub open spec fn parse_story_entry(s: Seq<char>, i: int) -> Option<((u32, StoryView), int)> {
    if 0 <= i < s.len() && s[i] == '"' {
        match parse_u32(s, i + 1) {
            None => None,
            Some((k, j)) => if j + 1 < s.len() && s[j] == '"' && s[j + 1] == ':' {
                match parse_story_obj(s, j + 2) {
                    None => None,
                    Some((v, j2)) => Some(((k, v), j2)),
                }
            } else {
                None
            },
        }
    } else {
        None
    }
}

/// A successful entry parse moves forward and stays in bounds.
pub proof fn lemma_parse_epic_entry_bounds(s: Seq<char>, i: int)
    ensures
        parse_epic_entry(s, i) matches Some(r) ==> i < r.1 <= s.len(),
{
    if parse_epic_entry(s, i) is Some {
        lemma_parse_u32_advances(s, i + 1);
        let j = parse_u32(s, i + 1).unwrap().1;
        lemma_parse_epic_obj_bounds(s, j + 2);
    }
}

/// A successful entry parse moves forward and stays in bounds.
pub proof fn lemma_parse_story_entry_bounds(s: Seq<char>, i: int)
    ensures
        parse_story_entry(s, i) matches Some(r) ==> i < r.1 <= s.len(),
{
    if parse_story_entry(s, i) is Some {
        lemma_parse_u32_advances(s, i + 1);
        let j = parse_u32(s, i + 1).unwrap().1;
        lemma_parse_story_obj_bounds(s, j + 2);
    }
}

/// Reads comma-separated epic entries up to the closing brace, insisting on
/// strictly ascending keys (the canonical order).
pub open spec fn parse_epic_entries_rest(s: Seq<char>, i: int, acc: Seq<(u32, EpicView)>) -> Option<
    (Seq<(u32, EpicView)>, int),
>
    decreases s.len() - i,
    via parse_epic_entries_rest_dec
{
    match parse_epic_entry(s, i) {
        None => None,
        Some((kv, j)) => {
            if acc.len() > 0 && acc.last().0 >= kv.0 {
                None
            } else if j < s.len() && s[j] == ',' {
                parse_epic_entries_rest(s, j + 1, acc.push(kv))
            } else if j < s.len() && s[j] == '}' {
                Some((acc.push(kv), j + 1))
            } else {
                None
            }
        },
    }
}

#[via_fn]
proof fn parse_epic_entries_rest_dec(s: Seq<char>, i: int, acc: Seq<(u32, EpicView)>) {
    lemma_parse_epic_entry_bounds(s, i);
}

/// Reads comma-separated story entries up to the closing brace, insisting on
/// strictly ascending keys (the canonical order).
pub open spec fn parse_story_entries_rest(s: Seq<char>, i: int, acc: Seq<(u32, StoryView)>) -> Option<
    (Seq<(u32, StoryView)>, int),
>
    decreases s.len() - i,
    via parse_story_entries_rest_dec
{
    match parse_story_entry(s, i) {
        None => None,
        Some((kv, j)) => {
            if acc.len() > 0 && acc.last().0 >= kv.0 {
                None
            } else if j < s.len() && s[j] == ',' {
                parse_story_entries_rest(s, j + 1, acc.push(kv))
            } else if j < s.len() && s[j] == '}' {
                Some((acc.push(kv), j + 1))
            } else {
                None
            }
        },
    }
}

#[via_fn]
proof fn parse_story_entries_rest_dec(s: Seq<char>, i: int, acc: Seq<(u32, StoryView)>) {
    lemma_parse_story_entry_bounds(s, i);
}

/// Parses the braced epic map at position `i`.
pub open spec fn parse_epic_map(s: Seq<char>, i: int) -> Option<(Seq<(u32, EpicView)>, int)> {
    if 0 <= i < s.len() && s[i] == '{' {
        if i + 1 < s.len() && s[i + 1] == '}' {
            Some((Seq::empty(), i + 2))
        } else {
            parse_epic_entries_rest(s, i + 1, Seq::empty())
        }
    } else {
        None
    }
}

/// Parses the braced story map at position `i`.
pub open spec fn parse_story_map(s: Seq<char>, i: int) -> Option<(Seq<(u32, StoryView)>, int)> {
    if 0 <= i < s.len() && s[i] == '{' {
        if i + 1 < s.len() && s[i + 1] == '}' {
            Some((Seq::empty(), i + 2))
        } else {
            parse_story_entries_rest(s, i + 1, Seq::empty())
        }
    } else {
        None
    }
}

/// The entry views of an ordered map of epics.
pub open spec fn epic_entry_views(l: Seq<(u32, Epic)>) -> Seq<(u32, EpicView)> {
    l.map_values(|p: (u32, Epic)| (p.0, p.1@))
}

/// The entry views of an ordered map of stories.
pub open spec fn story_entry_views(l: Seq<(u32, Story)>) -> Seq<(u32, StoryView)> {
    l.map_values(|p: (u32, Story)| (p.0, p.1@))
}

/// A snapshot as written: one object with its three fields in fixed order,
/// map entries in ascending id order.
pub open spec fn enc_db(db: DBState) -> Seq<char> {
    lit_last_item_id() + (dec_digits(db.last_item_id as nat) + (lit_epics() + (enc_epic_map(
        epic_entry_views(db.epics.entries@),
    ) + (lit_stories() + (enc_story_map(story_entry_views(db.stories.entries@)) + seq!['}'])))))
}

/// Parsing back an encoded story object yields exactly the original value.
proof fn lemma_pb_story_obj(s: Seq<char>, i: int, v: StoryView)
    requires
        starts_with(s, i, enc_story(v)),
    ensures
        parse_story_obj(s, i) == Some((v, i + enc_story(v).len())),
{
    let r1 = enc_string(v.name) + (lit_description() + (enc_string(v.description) + (lit_status()
        + (enc_status(v.status) + seq!['}']))));
    lemma_starts_with_concat(s, i, lit_name(), r1);
    let i1 = i + lit_name().len();
    let r2 = lit_description() + (enc_string(v.description) + (lit_status() + (enc_status(v.status)
        + seq!['}'])));
    lemma_starts_with_concat(s, i1, enc_string(v.name), r2);
    lemma_pb_string(s, i1, v.name);
    let i2 = i1 + enc_string(v.name).len();
    let r3 = enc_string(v.description) + (lit_status() + (enc_status(v.status) + seq!['}']));
    lemma_starts_with_concat(s, i2, lit_description(), r3);
    let i3 = i2 + lit_description().len();
    let r4 = lit_status() + (enc_status(v.status) + seq!['}']);
    lemma_starts_with_concat(s, i3, enc_string(v.description), r4);
    lemma_pb_string(s, i3, v.description);
    let i4 = i3 + enc_string(v.description).len();
    let r5 = enc_status(v.status) + seq!['}'];
    lemma_starts_with_concat(s, i4, lit_status(), r5);
    let i5 = i4 + lit_status().len();
    lemma_starts_with_concat(s, i5, enc_status(v.status), seq!['}']);
    lemma_pb_status(s, i5, v.status);
    let i6 = i5 + enc_status(v.status).len();
    lemma_starts_with_char(s, i6, '}');
}

/// Parsing back an encoded epic object yields exactly the original value.
proof fn lemma_pb_epic_obj(s: Seq<char>, i: int, v: EpicView)
    requires
        starts_with(s, i, enc_epic(v)),
    ensures
        parse_epic_obj(s, i) == Some((v, i + enc_epic(v).len())),
{
    let r1 = enc_string(v.name) + (lit_description() + (enc_string(v.description) + (lit_status()
        + (enc_status(v.status) + (lit_stories() + (enc_id_list(v.stories) + seq!['}']))))));
    lemma_starts_with_concat(s, i, lit_name(), r1);
    let i1 = i + lit_name().len();
    let r2 = lit_description() + (enc_string(v.description) + (lit_status() + (enc_status(v.status)
        + (lit_stories() + (enc_id_list(v.stories) + seq!['}'])))));
    lemma_starts_with_concat(s, i1, enc_string(v.name), r2);
    lemma_pb_string(s, i1, v.name);
    let i2 = i1 + enc_string(v.name).len();
    let r3 = enc_string(v.description) + (lit_status() + (enc_status(v.status) + (lit_stories() + (
    enc_id_list(v.stories) + seq!['}']))));
    lemma_starts_with_concat(s, i2, lit_description(), r3);
    let i3 = i2 + lit_description().len();
    let r4 = lit_status() + (enc_status(v.status) + (lit_stories() + (enc_id_list(v.stories)
        + seq!['}'])));
    lemma_starts_with_concat(s, i3, enc_string(v.description), r4);
    lemma_pb_string(s, i3, v.description);
    let i4 = i3 + enc_string(v.description).len();
    let r5 = enc_status(v.status) + (lit_stories() + (enc_id_list(v.stories) + seq!['}']));
    lemma_starts_with_concat(s, i4, lit_status(), r5);
    let i5 = i4 + lit_status().len();
    let r6 = lit_stories() + (enc_id_list(v.stories) + seq!['}']);
    lemma_starts_with_concat(s, i5, enc_status(v.status), r6);
    lemma_pb_status(s, i5, v.status);
    let i6 = i5 + enc_status(v.status).len();
    let r7 = enc_id_list(v.stories) + seq!['}'];
    lemma_starts_with_concat(s, i6, lit_stories(), r7);
    let i7 = i6 + lit_stories().len();
    lemma_starts_with_concat(s, i7, enc_id_list(v.stories), seq!['}']);
    lemma_pb_id_list(s, i7, v.stories);
    let i8 = i7 + enc_id_list(v.stories).len();
    lemma_starts_with_char(s, i8, '}');
}

/// Parsing back an encoded epic entry yields exactly the original pair.
proof fn lemma_pb_epic_entry(s: Seq<char>, i: int, k: u32, v: EpicView)
    requires
        starts_with(s, i, enc_epic_entry(k, v)),
    ensures
        parse_epic_entry(s, i) == Some(((k, v), i + enc_epic_entry(k, v).len())),
{
    let d = dec_digits(k as nat);
    let r1 = d + (seq!['"', ':'] + enc_epic(v));
    lemma_starts_with_concat(s, i, seq!['"'], r1);
    lemma_starts_with_char(s, i, '"');
    let i1 = i + 1;
    let r2 = seq!['"', ':'] + enc_epic(v);
    lemma_starts_with_concat(s, i1, d, r2);
    let j = i1 + d.len();
    lemma_starts_with_concat(s, j, seq!['"', ':'], enc_epic(v));
    lemma_starts_with_2chars(s, j, '"', ':');
    lemma_parse_back_u32(s, i1, k);
    lemma_pb_epic_obj(s, j + 2, v);
}

/// Parsing back an encoded story entry yields exactly the original pair.
proof fn lemma_pb_story_entry(s: Seq<char>, i: int, k: u32, v: StoryView)
    requires
        starts_with(s, i, enc_story_entry(k, v)),
    ensures
        parse_story_entry(s, i) == Some(((k, v), i + enc_story_entry(k, v).len())),
{
    let d = dec_digits(k as nat);
    let r1 = d + (seq!['"', ':'] + enc_story(v));
    lemma_starts_with_concat(s, i, seq!['"'], r1);
    lemma_starts_with_char(s, i, '"');
    let i1 = i + 1;
    let r2 = seq!['"', ':'] + enc_story(v);
    lemma_starts_with_concat(s, i1, d, r2);
    let j = i1 + d.len();
    lemma_starts_with_concat(s, j, seq!['"', ':'], enc_story(v));
    lemma_starts_with_2chars(s, j, '"', ':');
    lemma_parse_back_u32(s, i1, k);
    lemma_pb_story_obj(s, j + 2, v);
}

/// Parsing back encoded epic entries followed by the closing brace yields
/// exactly the original entries.
proof fn lemma_pb_epic_entries_rest(s: Seq<char>, i: int, l: Seq<(u32, EpicView)>, acc: Seq<(u32, EpicView)>)
    requires
        l.len() > 0,
        starts_with(s, i, enc_epic_items(l) + seq!['}']),
        forall|a: int, b: int| 0 <= a < b < l.len() ==> l[a].0 < l[b].0,
        acc.len() > 0 ==> acc.last().0 < l[0].0,
    ensures
        parse_epic_entries_rest(s, i, acc) == Some((acc + l, i + enc_epic_items(l).len() + 1)),
    decreases l.len(),
{
    let e = enc_epic_entry(l[0].0, l[0].1);
    if l.len() == 1 {
        assert(enc_epic_items(l) == e);
        lemma_starts_with_concat(s, i, e, seq!['}']);
        lemma_pb_epic_entry(s, i, l[0].0, l[0].1);
        lemma_starts_with_char(s, i + e.len(), '}');
        assert(acc + l =~= acc.push(l[0]));
    } else {
        let rest = l.subrange(1, l.len() as int);
        assert(enc_epic_items(l) == e + seq![','] + enc_epic_items(rest));
        assert((e + seq![','] + enc_epic_items(rest)) + seq!['}'] =~= e + ((seq![','] + (
        enc_epic_items(rest) + seq!['}']))));
        lemma_starts_with_concat(s, i, e, seq![','] + (enc_epic_items(rest) + seq!['}']));
        lemma_pb_epic_entry(s, i, l[0].0, l[0].1);
        let j = i + e.len();
        lemma_starts_with_concat(s, j, seq![','], enc_epic_items(rest) + seq!['}']);
        lemma_starts_with_char(s, j, ',');
        lemma_pb_epic_entries_rest(s, j + 1, rest, acc.push(l[0]));
        assert(acc.push(l[0]) + rest =~= acc + l);
    }
}

/// Parsing back encoded story entries followed by the closing brace yields
/// exactly the original entries.
proof fn lemma_pb_story_entries_rest(s: Seq<char>, i: int, l: Seq<(u32, StoryView)>, acc: Seq<(u32, StoryView)>)
    requires
        l.len() > 0,
        starts_with(s, i, enc_story_items(l) + seq!['}']),
        forall|a: int, b: int| 0 <= a < b < l.len() ==> l[a].0 < l[b].0,
        acc.len() > 0 ==> acc.last().0 < l[0].0,
    ensures
        parse_story_entries_rest(s, i, acc) == Some((acc + l, i + enc_story_items(l).len() + 1)),
    decreases l.len(),
{
    let e = enc_story_entry(l[0].0, l[0].1);
    if l.len() == 1 {
        assert(enc_story_items(l) == e);
        lemma_starts_with_concat(s, i, e, seq!['}']);
        lemma_pb_story_entry(s, i, l[0].0, l[0].1);
        lemma_starts_with_char(s, i + e.len(), '}');
        assert(acc + l =~= acc.push(l[0]));
    } else {
        let rest = l.subrange(1, l.len() as int);
        assert(enc_story_items(l) == e + seq![','] + enc_story_items(rest));
        assert((e + seq![','] + enc_story_items(rest)) + seq!['}'] =~= e + ((seq![','] + (
        enc_story_items(rest) + seq!['}']))));
        lemma_starts_with_concat(s, i, e, seq![','] + (enc_story_items(rest) + seq!['}']));
        lemma_pb_story_entry(s, i, l[0].0, l[0].1);
        let j = i + e.len();
        lemma_starts_with_concat(s, j, seq![','], enc_story_items(rest) + seq!['}']);
        lemma_starts_with_char(s, j, ',');
        lemma_pb_story_entries_rest(s, j + 1, rest, acc.push(l[0]));
        assert(acc.push(l[0]) + rest =~= acc + l);
    }
}

/// Parsing back an encoded epic map yields exactly the original entries.
proof fn lemma_pb_epic_map(s: Seq<char>, i: int, l: Seq<(u32, EpicView)>)
    requires
        starts_with(s, i, enc_epic_map(l)),
        forall|a: int, b: int| 0 <= a < b < l.len() ==> l[a].0 < l[b].0,
    ensures
        parse_epic_map(s, i) == Some((l, i + enc_epic_map(l).len())),
{
    let w = enc_epic_map(l);
    assert(s[i] == '{') by {
        assert(w[0] == '{');
    }
    if l.len() == 0 {
        assert(s[i + 1] == '}') by {
            assert(w[1] == '}');
        }
        assert(l =~= Seq::<(u32, EpicView)>::empty());
    } else {
        let e = enc_epic_entry(l[0].0, l[0].1);
        assert(enc_epic_items(l)[0] == '"') by {
            assert(e[0] == '"');
            if l.len() > 1 {
                assert(enc_epic_items(l) == e + seq![','] + enc_epic_items(
                    l.subrange(1, l.len() as int),
                ));
            }
        }
        assert(s[i + 1] == enc_epic_items(l)[0]) by {
            assert(w[1] == enc_epic_items(l)[0]);
        }
        assert(s[i + 1] != '}');
        assert(starts_with(s, i + 1, enc_epic_items(l) + seq!['}'])) by {
            assert forall|t: int| 0 <= t < enc_epic_items(l).len() + 1 implies s[i + 1 + t]
                == (enc_epic_items(l) + seq!['}'])[t] by {
                assert(s[i + 1 + t] == w[1 + t]);
                assert(w[1 + t] == (enc_epic_items(l) + seq!['}'])[t]);
            }
        }
        lemma_pb_epic_entries_rest(s, i + 1, l, Seq::empty());
        assert(Seq::<(u32, EpicView)>::empty() + l =~= l);
    }
}

/// Parsing back an encoded story map yields exactly the original entries.
proof fn lemma_pb_story_map(s: Seq<char>, i: int, l: Seq<(u32, StoryView)>)
    requires
        starts_with(s, i, enc_story_map(l)),
        forall|a: int, b: int| 0 <= a < b < l.len() ==> l[a].0 < l[b].0,
    ensures
        parse_story_map(s, i) == Some((l, i + enc_story_map(l).len())),
{
    let w = enc_story_map(l);
    assert(s[i] == '{') by {
        assert(w[0] == '{');
    }
    if l.len() == 0 {
        assert(s[i + 1] == '}') by {
            assert(w[1] == '}');
        }
        assert(l =~= Seq::<(u32, StoryView)>::empty());
    } else {
        let e = enc_story_entry(l[0].0, l[0].1);
        assert(enc_story_items(l)[0] == '"') by {
            assert(e[0] == '"');
            if l.len() > 1 {
                assert(enc_story_items(l) == e + seq![','] + enc_story_items(
                    l.subrange(1, l.len() as int),
                ));
            }
        }
        assert(s[i + 1] == enc_story_items(l)[0]) by {
            assert(w[1] == enc_story_items(l)[0]);
        }
        assert(s[i + 1] != '}');
        assert(starts_with(s, i + 1, enc_story_items(l) + seq!['}'])) by {
            assert forall|t: int| 0 <= t < enc_story_items(l).len() + 1 implies s[i + 1 + t]
                == (enc_story_items(l) + seq!['}'])[t] by {
                assert(s[i + 1 + t] == w[1 + t]);
                assert(w[1 + t] == (enc_story_items(l) + seq!['}'])[t]);
            }
        }
        lemma_pb_story_entries_rest(s, i + 1, l, Seq::empty());
        assert(Seq::<(u32, StoryView)>::empty() + l =~= l);
    }
}

/// Parses a whole snapshot document: the three fields in order, nothing
/// before or after.
pub open spec fn parse_db(s: Seq<char>) -> Option<(u32, Seq<(u32, EpicView)>, Seq<(u32, StoryView)>)> {
    match expect(s, 0, lit_last_item_id()) {
        None => None,
        Some(i1) => match parse_u32(s, i1) {
            None => None,
            Some((n, i2)) => match expect(s, i2, lit_epics()) {
                None => None,
                Some(i3) => match parse_epic_map(s, i3) {
                    None => None,
                    Some((evs, i4)) => match expect(s, i4, lit_stories()) {
                        None => None,
                        Some(i5) => match parse_story_map(s, i5) {
                            None => None,
                            Some((svs, i6)) => if i6 + 1 == s.len() && s[i6] == '}' {
                                Some((n, evs, svs))
                            } else {
                                None
                            },
                        },
                    },
                },
            },
        },
    }
}

/// Round-trip law: parsing the canonical encoding of any well-formed
/// snapshot succeeds and yields exactly the snapshot's counter and entries —
/// for every snapshot, including one with empty maps.
pub proof fn lemma_encode_decode_round_trip(db: DBState)
    requires
        db.wf(),
    ensures
        parse_db(enc_db(db)) == Some(
            (
                db.last_item_id,
                epic_entry_views(db.epics.entries@),
                story_entry_views(db.stories.entries@),
            ),
        ),
{
    let s = enc_db(db);
    let evs = epic_entry_views(db.epics.entries@);
    let svs = story_entry_views(db.stories.entries@);
    let d = dec_digits(db.last_item_id as nat);
    assert(starts_with(s, 0, s)) by {
        assert(forall|t: int| 0 <= t < s.len() ==> s[0 + t] == #[trigger] s[t]);
    }
    let r1 = d + (lit_epics() + (enc_epic_map(evs) + (lit_stories() + (enc_story_map(svs)
        + seq!['}']))));
    lemma_starts_with_concat(s, 0, lit_last_item_id(), r1);
    let i1 = lit_last_item_id().len() as int;
    let r2 = lit_epics() + (enc_epic_map(evs) + (lit_stories() + (enc_story_map(svs) + seq!['}'])));
    lemma_starts_with_concat(s, i1, d, r2);
    assert(!is_digit(s[i1 + d.len()])) by {
        reveal_strlit(",\"epics\":");
        assert(s[i1 + d.len() + 0] == lit_epics()[0]);
    }
    lemma_parse_back_u32(s, i1, db.last_item_id);
    let i2 = i1 + d.len();
    let r3 = enc_epic_map(evs) + (lit_stories() + (enc_story_map(svs) + seq!['}']));
    lemma_starts_with_concat(s, i2, lit_epics(), r3);
    let i3 = i2 + lit_epics().len();
    let r4 = lit_stories() + (enc_story_map(svs) + seq!['}']);
    lemma_starts_with_concat(s, i3, enc_epic_map(evs), r4);
    assert(forall|a: int, b: int| 0 <= a < b < evs.len() ==> evs[a].0 < evs[b].0) by {
        assert(forall|a: int|
            0 <= a < evs.len() ==> evs[a].0 == #[trigger] db.epics.entries@[a].0);
    }
    assert(forall|a: int, b: int| 0 <= a < b < svs.len() ==> svs[a].0 < svs[b].0) by {
        assert(forall|a: int|
            0 <= a < svs.len() ==> svs[a].0 == #[trigger] db.stories.entries@[a].0);
    }
    lemma_pb_epic_map(s, i3, evs);
    let i4 = i3 + enc_epic_map(evs).len();
    let r5 = enc_story_map(svs) + seq!['}'];
    lemma_starts_with_concat(s, i4, lit_stories(), r5);
    let i5 = i4 + lit_stories().len();
    lemma_starts_with_concat(s, i5, enc_story_map(svs), seq!['}']);
    lemma_pb_story_map(s, i5, svs);
    let i6 = i5 + enc_story_map(svs).len();
    lemma_starts_with_char(s, i6, '}');
    assert(i6 + 1 == s.len());
}

/// The abstract map of an ordered epic map depends only on its entry views.
proof fn lemma_epic_views_determine_map(a: Seq<(u32, Epic)>, b: Seq<(u32, Epic)>)
    requires
        epic_entry_views(a) == epic_entry_views(b),
    ensures
        crate::id_map::map_of(a) == crate::id_map::map_of(b),
    decreases a.len(),
{
    assert(epic_entry_views(a).len() == a.len());
    assert(epic_entry_views(b).len() == b.len());
    if a.len() > 0 {
        let n = a.len() as int;
        assert(epic_entry_views(a)[n - 1] == (a[n - 1].0, a[n - 1].1@));
        assert(epic_entry_views(b)[n - 1] == (b[n - 1].0, b[n - 1].1@));
        assert(epic_entry_views(a.drop_last()) =~= epic_entry_views(b.drop_last())) by {
            assert forall|t: int| 0 <= t < n - 1 implies epic_entry_views(a.drop_last())[t]
                == epic_entry_views(b.drop_last())[t] by {
                assert(epic_entry_views(a)[t] == (a[t].0, a[t].1@));
                assert(epic_entry_views(b)[t] == (b[t].0, b[t].1@));
                assert(a.drop_last()[t] == a[t] && b.drop_last()[t] == b[t]);
            }
        }
        lemma_epic_views_determine_map(a.drop_last(), b.drop_last());
    }
}

/// The abstract map of an ordered story map depends only on its entry views.
proof fn lemma_story_views_determine_map(a: Seq<(u32, Story)>, b: Seq<(u32, Story)>)
    requires
        story_entry_views(a) == story_entry_views(b),
    ensures
        crate::id_map::map_of(a) == crate::id_map::map_of(b),
    decreases a.len(),
{
    assert(story_entry_views(a).len() == a.len());
    assert(story_entry_views(b).len() == b.len());
    if a.len() > 0 {
        let n = a.len() as int;
        assert(story_entry_views(a)[n - 1] == (a[n - 1].0, a[n - 1].1@));
        assert(story_entry_views(b)[n - 1] == (b[n - 1].0, b[n - 1].1@));
        assert(story_entry_views(a.drop_last()) =~= story_entry_views(b.drop_last())) by {
            assert forall|t: int| 0 <= t < n - 1 implies story_entry_views(a.drop_last())[t]
                == story_entry_views(b.drop_last())[t] by {
                assert(story_entry_views(a)[t] == (a[t].0, a[t].1@));
                assert(story_entry_views(b)[t] == (b[t].0, b[t].1@));
                assert(a.drop_last()[t] == a[t] && b.drop_last()[t] == b[t]);
            }
        }
        lemma_story_views_determine_map(a.drop_last(), b.drop_last());
    }
}

/// Round-trip corollary: whatever snapshot a decode of `enc_db(db)` hands
/// back has exactly the same abstract value — counter and both id-keyed
/// maps — as `db` itself.
pub proof fn lemma_round_trip_preserves_model(db: DBState, d: DBState)
    requires
        db.wf(),
        parse_db(enc_db(db)) == Some(
            (
                d.last_item_id,
                epic_entry_views(d.epics.entries@),
                story_entry_views(d.stories.entries@),
            ),
        ),
    ensures
        d@ == db@,
{
    lemma_encode_decode_round_trip(db);
    lemma_epic_views_determine_map(d.epics.entries@, db.epics.entries@);
    lemma_story_views_determine_map(d.stories.entries@, db.stories.entries@);
    assert(d@ =~= db@);
}

/// The decimal digit with value `d`.
fn digit_exec(d: u32) -> (c: char)
    requires
        d < 10,
    ensures
        c == digit_char(d as nat),
{
    match d {
        0 => '0',
        1 => '1',
        2 => '2',
        3 => '3',
        4 => '4',
        5 => '5',
        6 => '6',
        7 => '7',
        8 => '8',
        _ => '9',
    }
}

/// The lowercase hexadecimal digit with value `d`.
fn hex_exec(d: u32) -> (c: char)
    requires
        d < 16,
    ensures
        c == hex_char(d as nat),
{
    if d < 10 {
        digit_exec(d)
    } else {
        match d {
            10 => 'a',
            11 => 'b',
            12 => 'c',
            13 => 'd',
            14 => 'e',
            _ => 'f',
        }
    }
}

/// Appends the characters of `s` to `out`.
pub(crate) fn push_str_chars(out: &mut Vec<char>, s: &str)
    ensures
        final(out)@ == old(out)@ + s@,
{
    let n = s.unicode_len();
    let mut i: usize = 0;
    while i < n
        invariant
            n == s@.len(),
            i <= n,
            out@ == old(out)@ + s@.take(i as int),
        decreases n - i,
    {
        out.push(s.get_char(i));
        proof {
            assert(s@.take(i + 1) =~= s@.take(i as int).push(s@[i as int]));
            assert(old(out)@ + s@.take(i + 1) =~= (old(out)@ + s@.take(i as int)).push(
                s@[i as int],
            ));
        }
        i = i + 1;
    }
    proof {
        assert(s@.take(n as int) =~= s@);
    }
}

/// Appends the canonical decimal form of `n` to `out`.
pub(crate) fn push_u32(out: &mut Vec<char>, n: u32)
    ensures
        final(out)@ == old(out)@ + dec_digits(n as nat),
    decreases n,
{
    if n >= 10 {
        push_u32(out, n / 10);
        out.push(digit_exec(n % 10));
        proof {
            assert(old(out)@ + dec_digits(n as nat) =~= (old(out)@ + dec_digits(
                n as nat / 10,
            )).push(digit_char(n as nat % 10)));
        }
    } else {
        out.push(digit_exec(n));
        proof {
            assert(old(out)@ + dec_digits(n as nat) =~= old(out)@.push(digit_char(n as nat)));
        }
    }
}

/// Appends the canonical decimal form of `n` to `out`.
pub(crate) fn push_usize(out: &mut Vec<char>, n: usize)
    ensures
        final(out)@ == old(out)@ + dec_digits(n as nat),
    decreases n,
{
    if n >= 10 {
        push_usize(out, n / 10);
        out.push(digit_exec((n % 10) as u32));
        proof {
            assert(old(out)@ + dec_digits(n as nat) =~= (old(out)@ + dec_digits(
                n as nat / 10,
            )).push(digit_char(n as nat % 10)));
        }
    } else {
        out.push(digit_exec(n as u32));
        proof {
            assert(old(out)@ + dec_digits(n as nat) =~= old(out)@.push(digit_char(n as nat)));
        }
    }
}

/// Appends one character of a string value in its escaped form to `out`.
fn push_escaped_char(out: &mut Vec<char>, c: char)
    ensures
        final(out)@ == old(out)@ + esc_char(c),
{
    if c == '"' {
        out.push('\\');
        out.push('"');
        proof {
            assert(old(out)@ + esc_char(c) =~= old(out)@.push('\\').push('"'));
        }
    } else if c == '\\' {
        out.push('\\');
        out.push('\\');
        proof {
            assert(old(out)@ + esc_char(c) =~= old(out)@.push('\\').push('\\'));
        }
    } else if (c as u32) < 32 {
        let code = c as u32;
        out.push('\\');
        out.push('u');
        out.push('0');
        out.push('0');
        out.push(hex_exec(code / 16));
        out.push(hex_exec(code % 16));
        proof {
            assert(old(out)@ + esc_char(c) =~= old(out)@.push('\\').push('u').push('0').push(
                '0',
            ).push(hex_char((c as u32 / 16) as nat)).push(hex_char((c as u32 % 16) as nat)));
        }
    } else {
        out.push(c);
        proof {
            assert(old(out)@ + esc_char(c) =~= old(out)@.push(c));
        }
    }
}

/// Appends a string value — quoted and escaped — to `out`.
fn push_string(out: &mut Vec<char>, s: &str)
    ensures
        final(out)@ == old(out)@ + enc_string(s@),
{
    out.push('"');
    let n = s.unicode_len();
    let mut i: usize = 0;
    while i < n
        invariant
            n == s@.len(),
            i <= n,
            out@ == old(out)@.push('"') + esc_str(s@.take(i as int)),
        decreases n - i,
    {
        let c = s.get_char(i);
        push_escaped_char(out, c);
        proof {
            lemma_esc_str_push(s@.take(i as int), c);
            assert(s@.take(i + 1) =~= s@.take(i as int).push(c));
            assert(old(out)@.push('"') + esc_str(s@.take(i + 1)) =~= (old(out)@.push('"')
                + esc_str(s@.take(i as int))) + esc_char(c));
        }
        i = i + 1;
    }
    out.push('"');
    proof {
        assert(s@.take(n as int) =~= s@);
        assert(old(out)@ + enc_string(s@) =~= (old(out)@.push('"') + esc_str(s@)).push('"'));
    }
}

/// Appends a status tag — quoted — to `out`.
fn push_status(out: &mut Vec<char>, st: &Status)
    ensures
        final(out)@ == old(out)@ + enc_status(*st),
{
    out.push('"');
    match st {
        Status::Open => push_str_chars(out, "Open"),
        Status::InProgress => push_str_chars(out, "InProgress"),
        Status::Resolved => push_str_chars(out, "Resolved"),
        Status::Closed => push_str_chars(out, "Closed"),
    }
    out.push('"');
    proof {
        assert(old(out)@ + enc_status(*st) =~= (old(out)@.push('"') + status_tag(*st)).push('"'));
    }
}

/// Appends a bracketed id list to `out`.
fn push_id_list(out: &mut Vec<char>, l: &Vec<u32>)
    ensures
        final(out)@ == old(out)@ + enc_id_list(l@),
{
    out.push('[');
    let mut i: usize = 0;
    while i < l.len()
        invariant
            i <= l@.len(),
            out@ == old(out)@.push('[') + enc_id_items(l@.take(i as int)),
        decreases l@.len() - i,
    {
        if i > 0 {
            out.push(',');
        }
        push_u32(out, l[i]);
        proof {
            lemma_enc_id_items_push(l@.take(i as int), l@[i as int]);
            assert(l@.take(i + 1) =~= l@.take(i as int).push(l@[i as int]));
            if i == 0 {
                assert(old(out)@.push('[') + enc_id_items(l@.take(i + 1)) =~= (old(out)@.push('[')
                    + enc_id_items(l@.take(i as int))) + dec_digits(l@[i as int] as nat));
            } else {
                assert(old(out)@.push('[') + enc_id_items(l@.take(i + 1)) =~= ((old(out)@.push('[')
                    + enc_id_items(l@.take(i as int))).push(',')) + dec_digits(
                    l@[i as int] as nat,
                ));
            }
        }
        i = i + 1;
    }
    out.push(']');
    proof {
        assert(l@.take(l@.len() as int) =~= l@);
        assert(old(out)@ + enc_id_list(l@) =~= (old(out)@.push('[') + enc_id_items(l@)).push(']'));
    }
}

/// Appends a story object to `out`.
fn push_story(out: &mut Vec<char>, v: &Story)
    ensures
        final(out)@ == old(out)@ + enc_story(v@),
{
    push_str_chars(out, "{\"name\":");
    push_string(out, v.name.as_str());
    push_str_chars(out, ",\"description\":");
    push_string(out, v.description.as_str());
    push_str_chars(out, ",\"status\":");
    push_status(out, &v.status);
    out.push('}');
    proof {
        let t1 = old(out)@ + lit_name();
        let t2 = t1 + enc_string(v.name@);
        let t3 = t2 + lit_description();
        let t4 = t3 + enc_string(v.description@);
        let t5 = t4 + lit_status();
        let t6 = t5 + enc_status(v.status);
        assert(out@ == t6.push('}'));
        assert(t6.push('}') =~= old(out)@ + enc_story(v@));
    }
}

/// Appends an epic object to `out`.
fn push_epic(out: &mut Vec<char>, v: &Epic)
    ensures
        final(out)@ == old(out)@ + enc_epic(v@),
{
    push_str_chars(out, "{\"name\":");
    push_string(out, v.name.as_str());
    push_str_chars(out, ",\"description\":");
    push_string(out, v.description.as_str());
    push_str_chars(out, ",\"status\":");
    push_status(out, &v.status);
    push_str_chars(out, ",\"stories\":");
    push_id_list(out, &v.stories);
    out.push('}');
    proof {
        let t1 = old(out)@ + lit_name();
        let t2 = t1 + enc_string(v.name@);
        let t3 = t2 + lit_description();
        let t4 = t3 + enc_string(v.description@);
        let t5 = t4 + lit_status();
        let t6 = t5 + enc_status(v.status);
        let t7 = t6 + lit_stories();
        let t8 = t7 + enc_id_list(v.stories@);
        assert(out@ == t8.push('}'));
        assert(t8.push('}') =~= old(out)@ + enc_epic(v@));
    }
}

/// Appends the epic map — braced entries in stored key order — to `out`.
fn push_epic_map(out: &mut Vec<char>, m: &IdMap<Epic>)
    ensures
        final(out)@ == old(out)@ + enc_epic_map(epic_entry_views(m.entries@)),
{
    out.push('{');
    let mut i: usize = 0;
    while i < m.entries.len()
        invariant
            i <= m.entries@.len(),
            out@ == old(out)@.push('{') + enc_epic_items(epic_entry_views(m.entries@.take(i as int))),
        decreases m.entries@.len() - i,
    {
        let ghost base = out@;
        let ghost k = m.entries@[i as int].0;
        let ghost v = m.entries@[i as int].1@;
        if i > 0 {
            out.push(',');
        }
        let ghost b0 = out@;
        out.push('"');
        push_u32(out, m.entries[i].0);
        out.push('"');
        out.push(':');
        push_epic(out, &m.entries[i].1);
        proof {
            let evs_i = epic_entry_views(m.entries@.take(i as int));
            lemma_enc_epic_items_push(evs_i, k, v);
            assert(epic_entry_views(m.entries@.take(i + 1)) =~= evs_i.push((k, v)));
            let t1 = b0.push('"');
            let t2 = t1 + dec_digits(k as nat);
            let t3 = t2.push('"');
            let t4 = t3.push(':');
            let t5 = t4 + enc_epic(v);
            assert(out@ == t5);
            assert(t5 =~= b0 + enc_epic_entry(k, v));
            if i > 0 {
                assert(b0 =~= base + seq![',']);
                let u1 = enc_epic_items(evs_i) + seq![','];
                let u2 = u1 + enc_epic_entry(k, v);
                assert(out@ =~= old(out)@.push('{') + u2);
                assert(u2 =~= enc_epic_items(epic_entry_views(m.entries@.take(i + 1))));
            } else {
                assert(evs_i.len() == 0);
                assert(out@ =~= old(out)@.push('{') + enc_epic_items(
                    epic_entry_views(m.entries@.take(i + 1)),
                ));
            }
        }
        i = i + 1;
    }
    out.push('}');
    proof {
        assert(m.entries@.take(m.entries@.len() as int) =~= m.entries@);
        let items = enc_epic_items(epic_entry_views(m.entries@));
        assert(out@ == (old(out)@.push('{') + items).push('}'));
        assert((old(out)@.push('{') + items).push('}') =~= old(out)@ + enc_epic_map(
            epic_entry_views(m.entries@),
        ));
    }
}

/// Appends the story map — braced entries in stored key order — to `out`.
fn push_story_map(out: &mut Vec<char>, m: &IdMap<Story>)
    ensures
        final(out)@ == old(out)@ + enc_story_map(story_entry_views(m.entries@)),
{
    out.push('{');
    let mut i: usize = 0;
    while i < m.entries.len()
        invariant
            i <= m.entries@.len(),
            out@ == old(out)@.push('{') + enc_story_items(story_entry_views(m.entries@.take(i as int))),
        decreases m.entries@.len() - i,
    {
        let ghost base = out@;
        let ghost k = m.entries@[i as int].0;
        let ghost v = m.entries@[i as int].1@;
        if i > 0 {
            out.push(',');
        }
        let ghost b0 = out@;
        out.push('"');
        push_u32(out, m.entries[i].0);
        out.push('"');
        out.push(':');
        push_story(out, &m.entries[i].1);
        proof {
            let svs_i = story_entry_views(m.entries@.take(i as int));
            lemma_enc_story_items_push(svs_i, k, v);
            assert(story_entry_views(m.entries@.take(i + 1)) =~= svs_i.push((k, v)));
            let t1 = b0.push('"');
            let t2 = t1 + dec_digits(k as nat);
            let t3 = t2.push('"');
            let t4 = t3.push(':');
            let t5 = t4 + enc_story(v);
            assert(out@ == t5);
            assert(t5 =~= b0 + enc_story_entry(k, v));
            if i > 0 {
                assert(b0 =~= base + seq![',']);
                let u1 = enc_story_items(svs_i) + seq![','];
                let u2 = u1 + enc_story_entry(k, v);
                assert(out@ =~= old(out)@.push('{') + u2);
                assert(u2 =~= enc_story_items(story_entry_views(m.entries@.take(i + 1))));
            } else {
                assert(svs_i.len() == 0);
                assert(out@ =~= old(out)@.push('{') + enc_story_items(
                    story_entry_views(m.entries@.take(i + 1)),
                ));
            }
        }
        i = i + 1;
    }
    out.push('}');
    proof {
        assert(m.entries@.take(m.entries@.len() as int) =~= m.entries@);
        let items = enc_story_items(story_entry_views(m.entries@));
        assert(out@ == (old(out)@.push('{') + items).push('}'));
        assert((old(out)@.push('{') + items).push('}') =~= old(out)@ + enc_story_map(
            story_entry_views(m.entries@),
        ));
    }
}

/// Relies on `String`'s `FromIterator` implementation (via `collect`): the
/// string holding exactly the given characters.
#[verifier::external_body]
pub(crate) fn string_from_chars(v: &Vec<char>) -> (r: String)
    ensures
        r@ == v@,
{
    v.iter().collect()
}

/// Encodes a snapshot as its canonical persisted document.
pub fn encode_db_state(db: &DBState) -> (r: String)
    ensures
        r@ == enc_db(*db),
{
    let mut out: Vec<char> = Vec::new();
    push_str_chars(&mut out, "{\"last_item_id\":");
    push_u32(&mut out, db.last_item_id);
    push_str_chars(&mut out, ",\"epics\":");
    push_epic_map(&mut out, &db.epics);
    push_str_chars(&mut out, ",\"stories\":");
    push_story_map(&mut out, &db.stories);
    out.push('}');
    proof {
        let t1 = Seq::<char>::empty() + lit_last_item_id();
        let t2 = t1 + dec_digits(db.last_item_id as nat);
        let t3 = t2 + lit_epics();
        let t4 = t3 + enc_epic_map(epic_entry_views(db.epics.entries@));
        let t5 = t4 + lit_stories();
        let t6 = t5 + enc_story_map(story_entry_views(db.stories.entries@));
        assert(out@ == t6.push('}'));
        assert(t6.push('}') =~= enc_db(*db));
    }
    string_from_chars(&out)
}

/// The characters of a string slice, one vector element per character.
fn chars_of(s: &str) -> (r: Vec<char>)
    ensures
        r@ == s@,
{
    let n = s.unicode_len();
    let mut r: Vec<char> = Vec::new();
    let mut i: usize = 0;
    while i < n
        invariant
            n == s@.len(),
            i <= n,
            r@ == s@.take(i as int),
        decreases n - i,
    {
        r.push(s.get_char(i));
        proof {
            assert(s@.take(i + 1) =~= s@.take(i as int).push(s@[i as int]));
        }
        i = i + 1;
    }
    proof {
        assert(s@.take(n as int) =~= s@);
    }
    r
}

/// Moves past the characters of `w` at position `i`, when they are there.
fn expect_lit(s: &Vec<char>, i: usize, w: &str) -> (r: Option<usize>)
    ensures
        match r {
            Some(j) => expect(s@, i as int, w@) == Some(j as int) && i <= j <= s@.len(),
            None => expect(s@, i as int, w@) is None,
        },
{
    let n = w.unicode_len();
    if i > s.len() || n > s.len() - i {
        return None;
    }
    let mut t: usize = 0;
    while t < n
        invariant
            n == w@.len(),
            i + n <= s@.len(),
            s@.len() <= usize::MAX,
            t <= n,
            forall|q: int| 0 <= q < t ==> s@[i + q] == #[trigger] w@[q],
        decreases n - t,
    {
        if s[i + t] != w.get_char(t) {
            proof {
                assert(!starts_with(s@, i as int, w@));
            }
            return None;
        }
        t = t + 1;
    }
    Some(i + n)
}

/// Parses a canonical decimal `u32` at position `i`.
fn d_u32(s: &Vec<char>, i: usize) -> (r: Option<(u32, usize)>)
    ensures
        match r {
            Some(p) => parse_u32(s@, i as int) == Some((p.0, p.1 as int)) && i < p.1 <= s@.len(),
            None => parse_u32(s@, i as int) is None,
        },
{
    if i >= s.len() {
        return None;
    }
    let c = s[i];
    if (c as u32) < 48 || (c as u32) > 57 {
        return None;
    }
    if c == '0' {
        return Some((0, i + 1));
    }
    let mut j: usize = i;
    let mut acc: u64 = 0;
    while j < s.len() && (s[j] as u32) >= 48 && (s[j] as u32) <= 57
        invariant
            i <= j <= s@.len(),
            i < s@.len(),
            is_digit(s@[i as int]),
            s@[i as int] != '0',
            acc <= u32::MAX as u64,
            parse_digits(s@, i as int, 0) == parse_digits(s@, j as int, acc as nat),
        decreases s@.len() - j,
    {
        let d = s[j] as u32 - 48;
        let newacc = acc * 10 + d as u64;
        proof {
            assert(parse_digits(s@, j as int, acc as nat) == parse_digits(
                s@,
                j + 1,
                acc as nat * 10 + digit_val(s@[j as int]),
            ));
        }
        if newacc > u32::MAX as u64 {
            proof {
                assert(newacc as nat == acc as nat * 10 + digit_val(s@[j as int]));
                assert(parse_digits(s@, i as int, 0) == parse_digits(s@, j + 1, newacc as nat));
                lemma_parse_digits_bounds(s@, j + 1, newacc as nat);
                assert(parse_digits(s@, i as int, 0).0 > u32::MAX);
            }
            return None;
        }
        acc = newacc;
        j = j + 1;
    }
    proof {
        lemma_parse_digits_bounds(s@, i + 1, digit_val(s@[i as int]));
        assert(parse_digits(s@, i as int, 0) == parse_digits(
            s@,
            i + 1,
            digit_val(s@[i as int]),
        ));
        assert(parse_digits(s@, j as int, acc as nat) == (acc as nat, j as int));
    }
    Some((acc as u32, j))
}

/// The value of a lowercase hexadecimal digit, when the character is one.
fn hex_val_exec(c: char) -> (r: Option<u32>)
    ensures
        match r {
            Some(v) => is_hex(c) && v == hex_val(c) && v < 16,
            None => !is_hex(c),
        },
{
    let u = c as u32;
    if 48 <= u && u <= 57 {
        Some(u - 48)
    } else if 97 <= u && u <= 102 {
        Some(u - 87)
    } else {
        None
    }
}

/// The character with the given code.
fn code_to_char(code: u32) -> (c: char)
    requires
        code < 32,
    ensures
        c == code_char(code as nat),
{
    let c = (code as u8) as char;
    proof {
        vstd::utf8::char_u32_cast(c, c as u32);
    }
    c
}

/// Reads the escaped body of a string up to its closing quote, appending the
/// unescaped characters to `acc`.
fn d_str_chars(s: &Vec<char>, j: usize, acc: &mut Vec<char>) -> (r: Option<usize>)
    requires
        j <= s@.len(),
    ensures
        match r {
            Some(end) => parse_str_chars(s@, j as int, old(acc)@) == Some(
                (final(acc)@, end as int),
            ) && end <= s@.len(),
            None => parse_str_chars(s@, j as int, old(acc)@) is None,
        },
    decreases s@.len() - j,
{
    if j >= s.len() {
        return None;
    }
    let c = s[j];
    if c == '"' {
        return Some(j + 1);
    }
    if c == '\\' {
        if s.len() - j > 1 && s[j + 1] == '"' {
            acc.push('"');
            return d_str_chars(s, j + 2, acc);
        }
        if s.len() - j > 1 && s[j + 1] == '\\' {
            acc.push('\\');
            return d_str_chars(s, j + 2, acc);
        }
        if s.len() - j > 5 && s[j + 1] == 'u' && s[j + 2] == '0' && s[j + 3] == '0' {
            let h1 = hex_val_exec(s[j + 4]);
            let h2 = hex_val_exec(s[j + 5]);
            match (h1, h2) {
                (Some(a), Some(b)) => {
                    let code = a * 16 + b;
                    if code < 32 {
                        acc.push(code_to_char(code));
                        return d_str_chars(s, j + 6, acc);
                    }
                    None
                },
                _ => None,
            }
        } else {
            None
        }
    } else if (c as u32) < 32 {
        None
    } else {
        acc.push(c);
        d_str_chars(s, j + 1, acc)
    }
}

/// Parses a quoted, escaped string value at position `i`.
fn d_string(s: &Vec<char>, i: usize) -> (r: Option<(String, usize)>)
    ensures
        match r {
            Some(p) => parse_string(s@, i as int) == Some((p.0@, p.1 as int)) && p.1 <= s@.len(),
            None => parse_string(s@, i as int) is None,
        },
{
    if i >= s.len() || s[i] != '"' {
        return None;
    }
    let mut acc: Vec<char> = Vec::new();
    match d_str_chars(s, i + 1, &mut acc) {
        Some(end) => Some((string_from_chars(&acc), end)),
        None => None,
    }
}

/// The quoted tags agree with their encoded form.
proof fn lemma_status_literals()
    ensures
        enc_status(Status::Open) == "\"Open\""@,
        enc_status(Status::InProgress) == "\"InProgress\""@,
        enc_status(Status::Resolved) == "\"Resolved\""@,
        enc_status(Status::Closed) == "\"Closed\""@,
{
    reveal_strlit("Open");
    reveal_strlit("\"Open\"");
    reveal_strlit("InProgress");
    reveal_strlit("\"InProgress\"");
    reveal_strlit("Resolved");
    reveal_strlit("\"Resolved\"");
    reveal_strlit("Closed");
    reveal_strlit("\"Closed\"");
    assert(enc_status(Status::Open) =~= "\"Open\""@);
    assert(enc_status(Status::InProgress) =~= "\"InProgress\""@);
    assert(enc_status(Status::Resolved) =~= "\"Resolved\""@);
    assert(enc_status(Status::Closed) =~= "\"Closed\""@);
}

/// Parses a status tag at position `i`.
fn d_status(s: &Vec<char>, i: usize) -> (r: Option<(Status, usize)>)
    ensures
        match r {
            Some(p) => parse_status(s@, i as int) == Some((p.0, p.1 as int)) && p.1 <= s@.len(),
            None => parse_status(s@, i as int) is None,
        },
{
    proof {
        lemma_status_literals();
    }
    if let Some(j) = expect_lit(s, i, "\"Open\"") {
        return Some((Status::Open, j));
    }
    if let Some(j) = expect_lit(s, i, "\"InProgress\"") {
        return Some((Status::InProgress, j));
    }
    if let Some(j) = expect_lit(s, i, "\"Resolved\"") {
        return Some((Status::Resolved, j));
    }
    if let Some(j) = expect_lit(s, i, "\"Closed\"") {
        return Some((Status::Closed, j));
    }
    None
}

/// Reads comma-separated ids up to the closing bracket, appending them to
/// `acc`.
fn d_ids_rest(s: &Vec<char>, j: usize, acc: &mut Vec<u32>) -> (r: Option<usize>)
    ensures
        match r {
            Some(end) => parse_ids_rest(s@, j as int, old(acc)@) == Some(
                (final(acc)@, end as int),
            ) && end <= s@.len(),
            None => parse_ids_rest(s@, j as int, old(acc)@) is None,
        },
    decreases s@.len() - j,
{
    match d_u32(s, j) {
        None => None,
        Some((v, j2)) => {
            if j2 < s.len() && s[j2] == ',' {
                acc.push(v);
                d_ids_rest(s, j2 + 1, acc)
            } else if j2 < s.len() && s[j2] == ']' {
                acc.push(v);
                Some(j2 + 1)
            } else {
                None
            }
        },
    }
}

/// Parses a bracketed id list at position `i`.
fn d_id_list(s: &Vec<char>, i: usize) -> (r: Option<(Vec<u32>, usize)>)
    ensures
        match r {
            Some(p) => parse_id_list(s@, i as int) == Some((p.0@, p.1 as int)) && p.1 <= s@.len(),
            None => parse_id_list(s@, i as int) is None,
        },
{
    if i >= s.len() || s[i] != '[' {
        return None;
    }
    if i + 1 < s.len() && s[i + 1] == ']' {
        let empty: Vec<u32> = Vec::new();
        return Some((empty, i + 2));
    }
    let mut acc: Vec<u32> = Vec::new();
    match d_ids_rest(s, i + 1, &mut acc) {
        Some(end) => Some((acc, end)),
        None => None,
    }
}

/// Parses a story object at position `i`.
fn d_story_obj(s: &Vec<char>, i: usize) -> (r: Option<(Story, usize)>)
    ensures
        match r {
            Some(p) => parse_story_obj(s@, i as int) == Some((p.0@, p.1 as int)) && p.1 <= s@.len(),
            None => parse_story_obj(s@, i as int) is None,
        },
{
    let i1 = match expect_lit(s, i, "{\"name\":") {
        Some(j) => j,
        None => return None,
    };
    let (name, i2) = match d_string(s, i1) {
        Some(p) => p,
        None => return None,
    };
    let i3 = match expect_lit(s, i2, ",\"description\":") {
        Some(j) => j,
        None => return None,
    };
    let (description, i4) = match d_string(s, i3) {
        Some(p) => p,
        None => return None,
    };
    let i5 = match expect_lit(s, i4, ",\"status\":") {
        Some(j) => j,
        None => return None,
    };
    let (status, i6) = match d_status(s, i5) {
        Some(p) => p,
        None => return None,
    };
    if i6 < s.len() && s[i6] == '}' {
        Some((Story { name, description, status }, i6 + 1))
    } else {
        None
    }
}

/// Parses an epic object at position `i`.
fn d_epic_obj(s: &Vec<char>, i: usize) -> (r: Option<(Epic, usize)>)
    ensures
        match r {
            Some(p) => parse_epic_obj(s@, i as int) == Some((p.0@, p.1 as int)) && p.1 <= s@.len(),
            None => parse_epic_obj(s@, i as int) is None,
        },
{
    let i1 = match expect_lit(s, i, "{\"name\":") {
        Some(j) => j,
        None => return None,
    };
    let (name, i2) = match d_string(s, i1) {
        Some(p) => p,
        None => return None,
    };
    let i3 = match expect_lit(s, i2, ",\"description\":") {
        Some(j) => j,
        None => return None,
    };
    let (description, i4) = match d_string(s, i3) {
        Some(p) => p,
        None => return None,
    };
    let i5 = match expect_lit(s, i4, ",\"status\":") {
        Some(j) => j,
        None => return None,
    };
    let (status, i6) = match d_status(s, i5) {
        Some(p) => p,
        None => return None,
    };
    let i7 = match expect_lit(s, i6, ",\"stories\":") {
        Some(j) => j,
        None => return None,
    };
    let (stories, i8) = match d_id_list(s, i7) {
        Some(p) => p,
        None => return None,
    };
    if i8 < s.len() && s[i8] == '}' {
        Some((Epic { name, description, status, stories }, i8 + 1))
    } else {
        None
    }
}

/// Parses one `"id":epic` entry at position `i`.
fn d_epic_entry(s: &Vec<char>, i: usize) -> (r: Option<((u32, Epic), usize)>)
    ensures
        match r {
            Some(p) => parse_epic_entry(s@, i as int) == Some(
                ((p.0.0, p.0.1@), p.1 as int),
            ) && i < p.1 <= s@.len(),
            None => parse_epic_entry(s@, i as int) is None,
        },
{
    if i >= s.len() || s[i] != '"' {
        return None;
    }
    let (k, j) = match d_u32(s, i + 1) {
        Some(p) => p,
        None => return None,
    };
    if s.len() - j > 1 && s[j] == '"' && s[j + 1] == ':' {
        match d_epic_obj(s, j + 2) {
            Some((v, j2)) => {
                proof {
                    lemma_parse_epic_obj_bounds(s@, j + 2);
                }
                Some(((k, v), j2))
            },
            None => None,
        }
    } else {
        None
    }
}

/// Parses one `"id":story` entry at position `i`.
fn d_story_entry(s: &Vec<char>, i: usize) -> (r: Option<((u32, Story), usize)>)
    ensures
        match r {
            Some(p) => parse_story_entry(s@, i as int) == Some(
                ((p.0.0, p.0.1@), p.1 as int),
            ) && i < p.1 <= s@.len(),
            None => parse_story_entry(s@, i as int) is None,
        },
{
    if i >= s.len() || s[i] != '"' {
        return None;
    }
    let (k, j) = match d_u32(s, i + 1) {
        Some(p) => p,
        None => return None,
    };
    if s.len() - j > 1 && s[j] == '"' && s[j + 1] == ':' {
        match d_story_obj(s, j + 2) {
            Some((v, j2)) => {
                proof {
                    lemma_parse_story_obj_bounds(s@, j + 2);
                }
                Some(((k, v), j2))
            },
            None => None,
        }
    } else {
        None
    }
}

/// Reads comma-separated epic entries up to the closing brace into `acc`,
/// insisting on strictly ascending keys.
fn d_epic_entries(s: &Vec<char>, j: usize, acc: &mut IdMap<Epic>) -> (r: Option<usize>)
    requires
        j <= s@.len(),
        old(acc).wf(),
    ensures
        final(acc).wf(),
        match r {
            Some(end) => parse_epic_entries_rest(s@, j as int, epic_entry_views(old(acc).entries@))
                == Some((epic_entry_views(final(acc).entries@), end as int)) && end <= s@.len(),
            None => parse_epic_entries_rest(
                s@,
                j as int,
                epic_entry_views(old(acc).entries@),
            ) is None,
        },
    decreases s@.len() - j,
{
    let ((k, v), j2) = match d_epic_entry(s, j) {
        Some(p) => p,
        None => return None,
    };
    if acc.entries.len() > 0 && acc.entries[acc.entries.len() - 1].0 >= k {
        return None;
    }
    proof {
        assert(forall|t: int| 0 <= t < acc.entries@.len() ==> #[trigger] acc.entries@[t].0 < k);
    }
    if j2 < s.len() && s[j2] == ',' {
        acc.push_max(k, v);
        proof {
            assert(epic_entry_views(acc.entries@) =~= epic_entry_views(old(acc).entries@).push(
                (k, v@),
            ));
        }
        d_epic_entries(s, j2 + 1, acc)
    } else if j2 < s.len() && s[j2] == '}' {
        acc.push_max(k, v);
        proof {
            assert(epic_entry_views(acc.entries@) =~= epic_entry_views(old(acc).entries@).push(
                (k, v@),
            ));
        }
        Some(j2 + 1)
    } else {
        None
    }
}

/// Reads comma-separated story entries up to the closing brace into `acc`,
/// insisting on strictly ascending keys.
fn d_story_entries(s: &Vec<char>, j: usize, acc: &mut IdMap<Story>) -> (r: Option<usize>)
    requires
        j <= s@.len(),
        old(acc).wf(),
    ensures
        final(acc).wf(),
        match r {
            Some(end) => parse_story_entries_rest(
                s@,
                j as int,
                story_entry_views(old(acc).entries@),
            ) == Some((story_entry_views(final(acc).entries@), end as int)) && end <= s@.len(),
            None => parse_story_entries_rest(
                s@,
                j as int,
                story_entry_views(old(acc).entries@),
            ) is None,
        },
    decreases s@.len() - j,
{
    let ((k, v), j2) = match d_story_entry(s, j) {
        Some(p) => p,
        None => return None,
    };
    if acc.entries.len() > 0 && acc.entries[acc.entries.len() - 1].0 >= k {
        return None;
    }
    proof {
        assert(forall|t: int| 0 <= t < acc.entries@.len() ==> #[trigger] acc.entries@[t].0 < k);
    }
    if j2 < s.len() && s[j2] == ',' {
        acc.push_max(k, v);
        proof {
            assert(story_entry_views(acc.entries@) =~= story_entry_views(old(acc).entries@).push(
                (k, v@),
            ));
        }
        d_story_entries(s, j2 + 1, acc)
    } else if j2 < s.len() && s[j2] == '}' {
        acc.push_max(k, v);
        proof {
            assert(story_entry_views(acc.entries@) =~= story_entry_views(old(acc).entries@).push(
                (k, v@),
            ));
        }
        Some(j2 + 1)
    } else {
        None
    }
}

/// Parses the braced epic map at position `i`.
fn d_epic_map(s: &Vec<char>, i: usize) -> (r: Option<(IdMap<Epic>, usize)>)
    ensures
        match r {
            Some(p) => p.0.wf() && parse_epic_map(s@, i as int) == Some(
                (epic_entry_views(p.0.entries@), p.1 as int),
            ) && p.1 <= s@.len(),
            None => parse_epic_map(s@, i as int) is None,
        },
{
    if i >= s.len() || s[i] != '{' {
        return None;
    }
    let mut acc: IdMap<Epic> = IdMap::new();
    if i + 1 < s.len() && s[i + 1] == '}' {
        proof {
            assert(epic_entry_views(acc.entries@) =~= Seq::<(u32, EpicView)>::empty());
        }
        return Some((acc, i + 2));
    }
    proof {
        assert(epic_entry_views(acc.entries@) =~= Seq::<(u32, EpicView)>::empty());
    }
    match d_epic_entries(s, i + 1, &mut acc) {
        Some(end) => Some((acc, end)),
        None => None,
    }
}

/// Parses the braced story map at position `i`.
fn d_story_map(s: &Vec<char>, i: usize) -> (r: Option<(IdMap<Story>, usize)>)
    ensures
        match r {
            Some(p) => p.0.wf() && parse_story_map(s@, i as int) == Some(
                (story_entry_views(p.0.entries@), p.1 as int),
            ) && p.1 <= s@.len(),
            None => parse_story_map(s@, i as int) is None,
        },
{
    if i >= s.len() || s[i] != '{' {
        return None;
    }
    let mut acc: IdMap<Story> = IdMap::new();
    if i + 1 < s.len() && s[i + 1] == '}' {
        proof {
            assert(story_entry_views(acc.entries@) =~= Seq::<(u32, StoryView)>::empty());
        }
        return Some((acc, i + 2));
    }
    proof {
        assert(story_entry_views(acc.entries@) =~= Seq::<(u32, StoryView)>::empty());
    }
    match d_story_entries(s, i + 1, &mut acc) {
        Some(end) => Some((acc, end)),
        None => None,
    }
}

/// Decodes a persisted document into a snapshot. Decoding is strict: only
/// the canonical form that [`encode_db_state`] writes is accepted; anything
/// else — wrong keys, wrong order, trailing text, malformed nesting — fails
/// the whole read.
pub fn decode_db_state(s: &str) -> (r: Option<DBState>)
    ensures
        match r {
            Some(db) => db.wf() && parse_db(s@) == Some(
                (
                    db.last_item_id,
                    epic_entry_views(db.epics.entries@),
                    story_entry_views(db.stories.entries@),
                ),
            ),
            None => parse_db(s@) is None,
        },
{
    let cs = chars_of(s);
    let i1 = match expect_lit(&cs, 0, "{\"last_item_id\":") {
        Some(j) => j,
        None => return None,
    };
    let (n, i2) = match d_u32(&cs, i1) {
        Some(p) => p,
        None => return None,
    };
    let i3 = match expect_lit(&cs, i2, ",\"epics\":") {
        Some(j) => j,
        None => return None,
    };
    let (epics, i4) = match d_epic_map(&cs, i3) {
        Some(p) => p,
        None => return None,
    };
    let i5 = match expect_lit(&cs, i4, ",\"stories\":") {
        Some(j) => j,
        None => return None,
    };
    let (stories, i6) = match d_story_map(&cs, i5) {
        Some(p) => p,
        None => return None,
    };
    if i6 < cs.len() && cs.len() - i6 == 1 && cs[i6] == '}' {
        Some(DBState { last_item_id: n, epics, stories })
    } else {
        None
    }
}

} // verus!
