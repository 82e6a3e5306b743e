use vstd::prelude::*;

verus! {

broadcast use vstd::seq::axiom_seq_index_decreases;

use crate::scalar::{is_blank_char, is_scalar_model, scalar_raw_text, spec_infer};
use crate::value::{
    model_collapse_insert, model_map_insert, StructuralError, ValModel, Value,
};

// ---------------------------------------------------------------------------
// Character scanning and entity escaping.
// ---------------------------------------------------------------------------

/// First position at or after `i` holding `c`, or the text's length.
pub open spec fn scan_to(s: Seq<char>, i: int, c: char) -> int
    decreases s.len() - i,
{
    if i < 0 || i >= s.len() {
        s.len() as int
    } else if s[i] == c {
        i
    } else {
        scan_to(s, i + 1, c)
    }
}

pub proof fn lemma_scan_to(s: Seq<char>, i: int, c: char)
    requires
        0 <= i <= s.len(),
    ensures
        i <= scan_to(s, i, c) <= s.len(),
        scan_to(s, i, c) < s.len() ==> s[scan_to(s, i, c)] == c,
        forall|k: int| i <= k < scan_to(s, i, c) ==> s[k] != c,
    decreases s.len() - i,
{
    if i < s.len() && s[i] != c {
        lemma_scan_to(s, i + 1, c);
    }
}

/// First position at or after `i` where the two-character pattern starts, or
/// the text's length.
pub open spec fn scan_to2(s: Seq<char>, i: int, c1: char, c2: char) -> int
    decreases s.len() - i,
{
    if i < 0 || i + 1 >= s.len() {
        s.len() as int
    } else if s[i] == c1 && s[i + 1] == c2 {
        i
    } else {
        scan_to2(s, i + 1, c1, c2)
    }
}

pub proof fn lemma_scan_to2(s: Seq<char>, i: int, c1: char, c2: char)
    requires
        0 <= i <= s.len(),
    ensures
        i <= scan_to2(s, i, c1, c2) <= s.len(),
        scan_to2(s, i, c1, c2) < s.len() ==> scan_to2(s, i, c1, c2) + 1 < s.len(),
    decreases s.len() - i,
{
    if i + 1 < s.len() && !(s[i] == c1 && s[i + 1] == c2) {
        lemma_scan_to2(s, i + 1, c1, c2);
    }
}

/// First position at or after `i` where the three-character pattern starts,
/// or the text's length.
pub open spec fn scan_to3(s: Seq<char>, i: int, c1: char, c2: char, c3: char) -> int
    decreases s.len() - i,
{
    if i < 0 || i + 2 >= s.len() {
        s.len() as int
    } else if s[i] == c1 && s[i + 1] == c2 && s[i + 2] == c3 {
        i
    } else {
        scan_to3(s, i + 1, c1, c2, c3)
    }
}

pub proof fn lemma_scan_to3(s: Seq<char>, i: int, c1: char, c2: char, c3: char)
    requires
        0 <= i <= s.len(),
    ensures
        i <= scan_to3(s, i, c1, c2, c3) <= s.len(),
        scan_to3(s, i, c1, c2, c3) < s.len() ==> scan_to3(s, i, c1, c2, c3) + 2 < s.len(),
    decreases s.len() - i,
{
    if i + 2 < s.len() && !(s[i] == c1 && s[i + 1] == c2 && s[i + 2] == c3) {
        lemma_scan_to3(s, i + 1, c1, c2, c3);
    }
}

/// A character that ends a tag name: whitespace, `/` or `>`.
pub open spec fn is_name_end(c: char) -> bool {
    is_blank_char(c) || c == '/' || c == '>'
}

/// First position at or after `i` that ends a tag name.
pub open spec fn scan_name_end(s: Seq<char>, i: int) -> int
    decreases s.len() - i,
{
    if i < 0 || i >= s.len() {
        s.len() as int
    } else if is_name_end(s[i]) {
        i
    } else {
        scan_name_end(s, i + 1)
    }
}

pub proof fn lemma_scan_name_end(s: Seq<char>, i: int)
    requires
        0 <= i <= s.len(),
    ensures
        i <= scan_name_end(s, i) <= s.len(),
        scan_name_end(s, i) < s.len() ==> is_name_end(s[scan_name_end(s, i)]),
        forall|k: int| i <= k < scan_name_end(s, i) ==> !is_name_end(#[trigger] s[k]),
    decreases s.len() - i,
{
    if i < s.len() && !is_name_end(s[i]) {
        lemma_scan_name_end(s, i + 1);
    }
}

/// First position at or after `i` that ends an attribute name: `=`, a blank,
/// `/`, `>` or `<`.
pub open spec fn is_attr_name_end(c: char) -> bool {
    is_blank_char(c) || c == '=' || c == '/' || c == '>' || c == '<'
}

pub open spec fn scan_attr_name_end(s: Seq<char>, i: int) -> int
    decreases s.len() - i,
{
    if i < 0 || i >= s.len() {
        s.len() as int
    } else if is_attr_name_end(s[i]) {
        i
    } else {
        scan_attr_name_end(s, i + 1)
    }
}

pub proof fn lemma_scan_attr_name_end(s: Seq<char>, i: int)
    requires
        0 <= i <= s.len(),
    ensures
        i <= scan_attr_name_end(s, i) <= s.len(),
        scan_attr_name_end(s, i) < s.len() ==> is_attr_name_end(s[scan_attr_name_end(s, i)]),
        forall|k: int| i <= k < scan_attr_name_end(s, i) ==> !is_attr_name_end(#[trigger] s[k]),
    decreases s.len() - i,
{
    if i < s.len() && !is_attr_name_end(s[i]) {
        lemma_scan_attr_name_end(s, i + 1);
    }
}

/// Sixteen to the power `n`.
pub open spec fn pow16(n: int) -> int
    decreases n,
{
    if n <= 0 {
        1
    } else {
        pow16(n - 1) * 16
    }
}

proof fn lemma_pow16_pos(n: int)
    ensures
        pow16(n) >= 1,
    decreases n,
{
    if n > 0 {
        lemma_pow16_pos(n - 1);
    }
}

proof fn lemma_pow16_le(a: int, b: int)
    requires
        a <= b,
    ensures
        pow16(a) <= pow16(b),
    decreases b - a,
{
    if a < b {
        lemma_pow16_le(a, b - 1);
        lemma_pow16_pos(b - 1);
    }
}

/// Every character is a hexadecimal digit.
pub open spec fn all_hex(s: Seq<char>) -> bool {
    forall|i: int| 0 <= i < s.len() ==> crate::lines::is_hex_digit(#[trigger] s[i])
}

/// The number denoted by a hexadecimal digit string, most significant
/// digit first.
pub open spec fn hex_digits_val(s: Seq<char>) -> int
    decreases s.len(),
{
    if s.len() == 0 {
        0
    } else {
        hex_digits_val(s.drop_last()) * 16 + crate::lines::hex_val(s.last())
    }
}

proof fn lemma_hex_digits_val_append(p: Seq<char>, rest: Seq<char>)
    ensures
        hex_digits_val(p + rest) == hex_digits_val(p) * pow16(rest.len() as int) + hex_digits_val(
            rest,
        ),
    decreases rest.len(),
{
    if rest.len() == 0 {
        assert(p + rest =~= p);
        assert(pow16(0) == 1);
    } else {
        lemma_hex_digits_val_append(p, rest.drop_last());
        assert((p + rest).drop_last() =~= p + rest.drop_last());
        assert((p + rest).last() == rest.last());
        assert(pow16(rest.len() as int) == pow16(rest.len() - 1) * 16);
        assert((hex_digits_val(p) * pow16(rest.len() - 1)) * 16 == hex_digits_val(p) * pow16(
            rest.len() as int,
        )) by (nonlinear_arith)
            requires
                pow16(rest.len() as int) == pow16(rest.len() - 1) * 16,
        ;
    }
}

proof fn lemma_hex_digits_val_bounds(s: Seq<char>)
    requires
        all_hex(s),
    ensures
        0 <= hex_digits_val(s),
    decreases s.len(),
{
    if s.len() > 0 {
        assert(forall|i: int| 0 <= i < s.drop_last().len() ==> s.drop_last()[i] == s[i]);
        lemma_hex_digits_val_bounds(s.drop_last());
        assert(crate::lines::is_hex_digit(s.last()));
        assert(0 <= crate::lines::hex_val(s.last()));
        assert(hex_digits_val(s.drop_last()) * 16 >= 0) by (nonlinear_arith)
            requires
                hex_digits_val(s.drop_last()) >= 0,
        ;
    }
}

/// Leading zero digits do not change a digit string's value.
proof fn lemma_hex_zeros(p: Seq<char>, rest: Seq<char>)
    requires
        forall|i: int| 0 <= i < p.len() ==> #[trigger] p[i] == '0',
    ensures
        hex_digits_val(p + rest) == hex_digits_val(rest),
    decreases p.len(),
{
    lemma_hex_digits_val_append(p, rest);
    assert(hex_digits_val(p) == 0) by {
        lemma_hex_zeros_val(p);
    }
}

proof fn lemma_hex_zeros_val(p: Seq<char>)
    requires
        forall|i: int| 0 <= i < p.len() ==> #[trigger] p[i] == '0',
    ensures
        hex_digits_val(p) == 0,
    decreases p.len(),
{
    if p.len() > 0 {
        assert(forall|i: int| 0 <= i < p.drop_last().len() ==> p.drop_last()[i] == p[i]);
        lemma_hex_zeros_val(p.drop_last());
        assert(p.last() == '0');
        assert(crate::lines::hex_val('0') == 0);
    }
}

proof fn lemma_dec_zeros(p: Seq<char>, rest: Seq<char>)
    requires
        forall|i: int| 0 <= i < p.len() ==> #[trigger] p[i] == '0',
    ensures
        crate::scalar::digits_val(p + rest) == crate::scalar::digits_val(rest),
    decreases p.len(),
{
    crate::scalar::lemma_digits_val_append(p, rest);
    assert(crate::scalar::digits_val(p) == 0) by {
        lemma_dec_zeros_val(p);
    }
}

proof fn lemma_dec_zeros_val(p: Seq<char>)
    requires
        forall|i: int| 0 <= i < p.len() ==> #[trigger] p[i] == '0',
    ensures
        crate::scalar::digits_val(p) == 0,
    decreases p.len(),
{
    if p.len() > 0 {
        assert(forall|i: int| 0 <= i < p.drop_last().len() ==> p.drop_last()[i] == p[i]);
        lemma_dec_zeros_val(p.drop_last());
        assert(p.last() == '0');
        assert(crate::scalar::digit_val('0') == 0);
    }
}

/// A digit string with a non-zero leading digit is at least its base to
/// the power of its remaining length.
proof fn lemma_hex_sig_lower(t: Seq<char>)
    requires
        all_hex(t),
        t.len() >= 1,
        t[0] != '0',
    ensures
        hex_digits_val(t) >= pow16(t.len() - 1),
{
    let h = t.take(1);
    let rest = t.skip(1);
    assert(t =~= h + rest);
    lemma_hex_digits_val_append(h, rest);
    assert(h.drop_last() =~= Seq::<char>::empty());
    assert(h.last() == t[0]);
    assert(hex_digits_val(Seq::<char>::empty()) == 0);
    assert(hex_digits_val(h) == hex_digits_val(h.drop_last()) * 16 + crate::lines::hex_val(
        h.last(),
    ));
    assert(hex_digits_val(h) == crate::lines::hex_val(t[0]));
    assert(crate::lines::hex_val(t[0]) >= 1) by {
        assert(crate::lines::is_hex_digit(t[0]));
        assert(t[0] as u32 != 48) by {
            if t[0] as u32 == 48 {
                assert(t[0] == '0') by {
                    vstd::utf8::char_u32_cast(t[0], 48);
                    vstd::utf8::char_u32_cast('0', 48);
                }
            }
        }
    }
    assert(all_hex(rest)) by {
        assert(forall|i: int| 0 <= i < rest.len() ==> rest[i] == t[i + 1]);
    }
    lemma_hex_digits_val_bounds(rest);
    lemma_pow16_pos(rest.len() as int);
    assert(hex_digits_val(h) * pow16(rest.len() as int) >= pow16(rest.len() as int)) by (
    nonlinear_arith)
        requires
            hex_digits_val(h) >= 1,
            pow16(rest.len() as int) >= 0,
    ;
}

proof fn lemma_dec_sig_lower(t: Seq<char>)
    requires
        crate::scalar::all_digits(t),
        t.len() >= 1,
        t[0] != '0',
    ensures
        crate::scalar::digits_val(t) >= crate::scalar::pow10(t.len() - 1),
{
    let h = t.take(1);
    let rest = t.skip(1);
    assert(t =~= h + rest);
    crate::scalar::lemma_digits_val_append(h, rest);
    assert(h.drop_last() =~= Seq::<char>::empty());
    assert(h.last() == t[0]);
    assert(crate::scalar::digits_val(Seq::<char>::empty()) == 0);
    assert(crate::scalar::digits_val(h) == crate::scalar::digits_val(h.drop_last()) * 10
        + crate::scalar::digit_val(h.last()));
    assert(crate::scalar::digits_val(h) == crate::scalar::digit_val(t[0]));
    assert(crate::scalar::digit_val(t[0]) >= 1) by {
        assert(crate::scalar::is_ascii_digit(t[0]));
        assert(t[0] as u32 != 48) by {
            if t[0] as u32 == 48 {
                assert(t[0] == '0') by {
                    vstd::utf8::char_u32_cast(t[0], 48);
                    vstd::utf8::char_u32_cast('0', 48);
                }
            }
        }
    }
    assert(crate::scalar::all_digits(rest)) by {
        assert(forall|i: int| 0 <= i < rest.len() ==> rest[i] == t[i + 1]);
    }
    crate::scalar::lemma_digits_val_bounds(rest);
    crate::scalar::lemma_pow10_pos(rest.len() as int);
    assert(crate::scalar::digits_val(h) * crate::scalar::pow10(rest.len() as int)
        >= crate::scalar::pow10(rest.len() as int)) by (nonlinear_arith)
        requires
            crate::scalar::digits_val(h) >= 1,
            crate::scalar::pow10(rest.len() as int) >= 0,
    ;
}

/// First position at or after `i` holding a non-hexadecimal character.
pub open spec fn scan_hex(s: Seq<char>, i: int) -> int
    decreases s.len() - i,
{
    if i < 0 || i >= s.len() {
        s.len() as int
    } else if crate::lines::is_hex_digit(s[i]) {
        scan_hex(s, i + 1)
    } else {
        i
    }
}

pub proof fn lemma_scan_hex(s: Seq<char>, i: int)
    requires
        0 <= i <= s.len(),
    ensures
        i <= scan_hex(s, i) <= s.len(),
        scan_hex(s, i) < s.len() ==> !crate::lines::is_hex_digit(s[scan_hex(s, i)]),
        forall|k: int| i <= k < scan_hex(s, i) ==> crate::lines::is_hex_digit(#[trigger] s[k]),
    decreases s.len() - i,
{
    if i < s.len() && crate::lines::is_hex_digit(s[i]) {
        lemma_scan_hex(s, i + 1);
    }
}

/// A numeric code is a character: below the surrogates or above them and
/// at most the greatest code point.
pub open spec fn valid_code(cv: int) -> bool {
    (0 <= cv && cv < 0xD800) || (0xE000 <= cv && cv <= 0x10FFFF)
}

/// The escaped form of one character in markup text or attribute values: the
/// five reserved characters become entities.
pub open spec fn markup_escape_char(c: char) -> Seq<char> {
    if c == '&' {
        seq!['&', 'a', 'm', 'p', ';']
    } else if c == '<' {
        seq!['&', 'l', 't', ';']
    } else if c == '>' {
        seq!['&', 'g', 't', ';']
    } else if c == '"' {
        seq!['&', 'q', 'u', 'o', 't', ';']
    } else if c == '\'' {
        seq!['&', 'a', 'p', 'o', 's', ';']
    } else {
        seq![c]
    }
}

/// The escaped form of a text.
pub open spec fn markup_escape(s: Seq<char>) -> Seq<char>
    decreases s.len(),
{
    if s.len() == 0 {
        Seq::empty()
    } else {
        markup_escape_char(s[0]) + markup_escape(s.drop_first())
    }
}

/// Whether the named entity for `c` starts at position 0 of `s` (after the
/// ampersand was already seen at position -1 conceptually): helper for the
/// decoder below.
pub open spec fn entity_at(s: Seq<char>, body: Seq<char>) -> bool {
    s.len() >= body.len() && s.take(body.len() as int) == body
}

/// Decodes the five named entities and decimal or hexadecimal character
/// references (which must denote a character: surrogate codes and codes
/// past the greatest code point are faults); `None` on a bare ampersand
/// with an unknown entity. A bare `<` never reaches the decoder (text runs
/// stop at `<`), every other character stands for itself.
pub open spec fn markup_unescape(s: Seq<char>) -> Option<Seq<char>>
    decreases s.len(),
{
    if s.len() == 0 {
        Some(Seq::empty())
    } else if s[0] == '&' {
        if s.len() >= 2 && s[1] == '#' {
            if s.len() >= 3 && (s[2] == 'x' || s[2] == 'X') {
                let e = scan_hex(s, 3);
                proof {
                    lemma_scan_hex(s, 3);
                }
                if e == 3 || e >= s.len() || s[e] != ';' {
                    None
                } else {
                    let cv = hex_digits_val(s.subrange(3, e));
                    if valid_code(cv) {
                        match markup_unescape(s.skip(e + 1)) {
                            None => None,
                            Some(rest) => Some(seq![((cv as u32) as char)] + rest),
                        }
                    } else {
                        None
                    }
                }
            } else {
                let e = crate::lines::scan_digits(s, 2);
                proof {
                    crate::lines::lemma_scan_digits(s, 2);
                }
                if e == 2 || e >= s.len() || s[e] != ';' {
                    None
                } else {
                    let cv = crate::scalar::digits_val(s.subrange(2, e));
                    if valid_code(cv) {
                        match markup_unescape(s.skip(e + 1)) {
                            None => None,
                            Some(rest) => Some(seq![((cv as u32) as char)] + rest),
                        }
                    } else {
                        None
                    }
                }
            }
        } else if entity_at(s.skip(1), seq!['a', 'm', 'p', ';']) {
            match markup_unescape(s.skip(5)) {
                None => None,
                Some(rest) => Some(seq!['&'] + rest),
            }
        } else if entity_at(s.skip(1), seq!['l', 't', ';']) {
            match markup_unescape(s.skip(4)) {
                None => None,
                Some(rest) => Some(seq!['<'] + rest),
            }
        } else if entity_at(s.skip(1), seq!['g', 't', ';']) {
            match markup_unescape(s.skip(4)) {
                None => None,
                Some(rest) => Some(seq!['>'] + rest),
            }
        } else if entity_at(s.skip(1), seq!['q', 'u', 'o', 't', ';']) {
            match markup_unescape(s.skip(6)) {
                None => None,
                Some(rest) => Some(seq!['"'] + rest),
            }
        } else if entity_at(s.skip(1), seq!['a', 'p', 'o', 's', ';']) {
            match markup_unescape(s.skip(6)) {
                None => None,
                Some(rest) => Some(seq!['\''] + rest),
            }
        } else {
            None
        }
    } else {
        match markup_unescape(s.skip(1)) {
            None => None,
            Some(rest) => Some(seq![s[0]] + rest),
        }
    }
}

/// Entity decoding inverts entity escaping, for every text: the markup
/// bridge's text and attribute values survive a write and read unchanged.
pub proof fn lemma_markup_unescape_escape(s: Seq<char>)
    ensures
        markup_unescape(markup_escape(s)) == Some(s),
    decreases s.len(),
{
    if s.len() > 0 {
        lemma_markup_unescape_escape(s.drop_first());
        let e = markup_escape(s);
        let c = s[0];
        let h = markup_escape_char(c);
        let rest = markup_escape(s.drop_first());
        assert(e == h + rest);
        assert(forall|k: int| 0 <= k < e.len() - 1 ==> e.skip(1)[k] == e[k + 1]);
        if c == '&' {
            assert(e[0] == '&');
            assert(entity_at(e.skip(1), seq!['a', 'm', 'p', ';'])) by {
                assert(e.skip(1).take(4) =~= seq!['a', 'm', 'p', ';']);
            }
            assert(e.skip(5) =~= rest);
            assert(seq![c] + s.drop_first() =~= s);
        } else if c == '<' {
            assert(e[0] == '&');
            assert(!entity_at(e.skip(1), seq!['a', 'm', 'p', ';'])) by {
                if entity_at(e.skip(1), seq!['a', 'm', 'p', ';']) {
                    assert(e.skip(1)[0] == 'a');
                }
            }
            assert(entity_at(e.skip(1), seq!['l', 't', ';'])) by {
                assert(e.skip(1).take(3) =~= seq!['l', 't', ';']);
            }
            assert(e.skip(4) =~= rest);
            assert(seq![c] + s.drop_first() =~= s);
        } else if c == '>' {
            assert(e[0] == '&');
            assert(!entity_at(e.skip(1), seq!['a', 'm', 'p', ';'])) by {
                if entity_at(e.skip(1), seq!['a', 'm', 'p', ';']) {
                    assert(e.skip(1)[0] == 'a');
                }
            }
            assert(!entity_at(e.skip(1), seq!['l', 't', ';'])) by {
                if entity_at(e.skip(1), seq!['l', 't', ';']) {
                    assert(e.skip(1)[0] == 'l');
                }
            }
            assert(entity_at(e.skip(1), seq!['g', 't', ';'])) by {
                assert(e.skip(1).take(3) =~= seq!['g', 't', ';']);
            }
            assert(e.skip(4) =~= rest);
            assert(seq![c] + s.drop_first() =~= s);
        } else if c == '"' {
            assert(e[0] == '&');
            assert(!entity_at(e.skip(1), seq!['a', 'm', 'p', ';'])) by {
                if entity_at(e.skip(1), seq!['a', 'm', 'p', ';']) {
                    assert(e.skip(1)[0] == 'a');
                }
            }
            assert(!entity_at(e.skip(1), seq!['l', 't', ';'])) by {
                if entity_at(e.skip(1), seq!['l', 't', ';']) {
                    assert(e.skip(1)[0] == 'l');
                }
            }
            assert(!entity_at(e.skip(1), seq!['g', 't', ';'])) by {
                if entity_at(e.skip(1), seq!['g', 't', ';']) {
                    assert(e.skip(1)[0] == 'g');
                }
            }
            assert(entity_at(e.skip(1), seq!['q', 'u', 'o', 't', ';'])) by {
                assert(e.skip(1).take(5) =~= seq!['q', 'u', 'o', 't', ';']);
            }
            assert(e.skip(6) =~= rest);
            assert(seq![c] + s.drop_first() =~= s);
        } else if c == '\'' {
            assert(e[0] == '&');
            assert(!entity_at(e.skip(1), seq!['a', 'm', 'p', ';'])) by {
                if entity_at(e.skip(1), seq!['a', 'm', 'p', ';']) {
                    assert(e.skip(1)[1] == 'm');
                }
            }
            assert(!entity_at(e.skip(1), seq!['l', 't', ';'])) by {
                if entity_at(e.skip(1), seq!['l', 't', ';']) {
                    assert(e.skip(1)[0] == 'l');
                }
            }
            assert(!entity_at(e.skip(1), seq!['g', 't', ';'])) by {
                if entity_at(e.skip(1), seq!['g', 't', ';']) {
                    assert(e.skip(1)[0] == 'g');
                }
            }
            assert(!entity_at(e.skip(1), seq!['q', 'u', 'o', 't', ';'])) by {
                if entity_at(e.skip(1), seq!['q', 'u', 'o', 't', ';']) {
                    assert(e.skip(1)[0] == 'q');
                }
            }
            assert(entity_at(e.skip(1), seq!['a', 'p', 'o', 's', ';'])) by {
                assert(e.skip(1).take(5) =~= seq!['a', 'p', 'o', 's', ';']);
            }
            assert(e.skip(6) =~= rest);
            assert(seq![c] + s.drop_first() =~= s);
        } else {
            assert(e[0] == c);
            assert(e.skip(1) =~= rest);
            assert(seq![c] + s.drop_first() =~= s);
        }
    }
}

/// Whether the text is blank (only whitespace).
pub open spec fn all_blank(s: Seq<char>) -> bool {
    forall|i: int| 0 <= i < s.len() ==> is_blank_char(#[trigger] s[i])
}

// ---------------------------------------------------------------------------
// The parse specification: a single pass over the characters, keeping a
// stack of partially built parent maps, exactly as the bridge executes it.
// ---------------------------------------------------------------------------

/// One frame of the element stack: the parent's partial entry list and tag
/// name.
pub ghost struct Frame {
    pub entries: Seq<(Seq<char>, ValModel)>,
    pub name: Seq<char>,
}

/// Reads the attribute list of an opening tag, starting at `i` (just past
/// the tag name). Gives the attribute entries (marker-prefixed, values
/// scalar-inferred), the position just past `>`, and whether the tag was
/// self-closing; or the position of the fault.
pub open spec fn parse_attrs(
    s: Seq<char>,
    i: int,
    attrs: Seq<(Seq<char>, ValModel)>,
) -> Result<(Seq<(Seq<char>, ValModel)>, int, bool), int>
    decreases s.len() - i,
{
    if i < 0 || i >= s.len() {
        Err(s.len() as int)
    } else if is_blank_char(s[i]) {
        parse_attrs(s, i + 1, attrs)
    } else if s[i] == '>' {
        Ok((attrs, i + 1, false))
    } else if s[i] == '/' {
        if i + 1 < s.len() && s[i + 1] == '>' {
            Ok((attrs, i + 2, true))
        } else {
            Err(i)
        }
    } else {
        let ne = scan_attr_name_end(s, i);
        if ne >= s.len() || s[ne] != '=' || ne == i {
            Err(i)
        } else if ne + 1 >= s.len() || !(s[ne + 1] == '"' || s[ne + 1] == '\'') {
            Err(i)
        } else {
            let q = s[ne + 1];
            let ve = scan_to(s, ne + 2, q);
            if ve >= s.len() {
                Err(i)
            } else {
                match markup_unescape(s.subrange(ne + 2, ve)) {
                    None => Err(i),
                    Some(raw) => {
                        proof {
                            lemma_scan_attr_name_end(s, i);
                            lemma_scan_to(s, ne + 2, q);
                        }
                        parse_attrs(
                            s,
                            ve + 1,
                            model_map_insert(
                                attrs,
                                seq!['@'] + s.subrange(i, ne),
                                spec_infer(raw),
                            ),
                        )
                    },
                }
            }
        }
    }
}

/// `parse_attrs` always moves forward and stays inside the text.
pub proof fn lemma_parse_attrs_progress(s: Seq<char>, i: int, attrs: Seq<(Seq<char>, ValModel)>)
    requires
        0 <= i <= s.len(),
    ensures
        parse_attrs(s, i, attrs) matches Ok(o) ==> i < o.1 <= s.len(),
    decreases s.len() - i,
{
    if 0 <= i < s.len() {
        if is_blank_char(s[i]) {
            lemma_parse_attrs_progress(s, i + 1, attrs);
        } else if s[i] == '>' || s[i] == '/' {
        } else {
            let ne = scan_attr_name_end(s, i);
            lemma_scan_attr_name_end(s, i);
            if ne < s.len() && s[ne] == '=' && ne != i && ne + 1 < s.len() && (s[ne + 1] == '"' || s[
                ne + 1
            ] == '\'') {
                let q = s[ne + 1];
                let ve = scan_to(s, ne + 2, q);
                lemma_scan_to(s, ne + 2, q);
                if ve < s.len() {
                    match markup_unescape(s.subrange(ne + 2, ve)) {
                        None => {
                        },
                        Some(raw) => {
                            lemma_parse_attrs_progress(
                                s,
                                ve + 1,
                                model_map_insert(
                                    attrs,
                                    seq!['@'] + s.subrange(i, ne),
                                    spec_infer(raw),
                                ),
                            );
                        },
                    }
                }
            }
        }
    }
}

/// The reserved wrapper tag used when a nameless value must be serialized.
pub open spec fn wrapper_tag() -> Seq<char> {
    seq!['r', 'o', 'o', 't']
}

/// The reserved key that carries an element's inline text next to children.
pub open spec fn text_key() -> Seq<char> {
    seq!['#', 't', 'e', 'x', 't']
}

/// Finalizes the element being built into its value: no entries means the
/// accumulated text is scalar-inferred; otherwise non-blank text is stored
/// under the reserved text key and the element is the entry map.
pub open spec fn finalize_element(
    cur: Seq<(Seq<char>, ValModel)>,
    buf: Seq<char>,
) -> ValModel {
    if cur.len() == 0 {
        spec_infer(buf)
    } else if !all_blank(buf) {
        ValModel::Mapping(model_map_insert(cur, text_key(), ValModel::Text(buf)))
    } else {
        ValModel::Mapping(cur)
    }
}

/// What the whole document yields at its end: exactly one top-level element
/// must remain, and a sole element under the reserved wrapper tag is
/// unwrapped. A document of bare text with no element at all yields its
/// scalar-inferred text directly — a deliberate choice: the serializer
/// writes a nameless scalar as bare escaped text, and returning the bare
/// scalar (rather than wrapping it in an object or rejecting the document)
/// is what lets such output read back as the value it came from.
pub open spec fn finalize_document(
    stack_len: int,
    cur: Seq<(Seq<char>, ValModel)>,
    buf: Seq<char>,
) -> Result<ValModel, StructuralError> {
    if stack_len != 0 {
        Err(StructuralError::Malformed(0))
    } else if cur.len() == 1 {
        if cur[0].0 == wrapper_tag() {
            Ok(cur[0].1)
        } else {
            Ok(ValModel::Mapping(cur))
        }
    } else if cur.len() == 0 && !all_blank(buf) {
        Ok(spec_infer(buf))
    } else {
        Err(StructuralError::UnsupportedRoot)
    }
}

/// The single parsing pass. `stack` holds the open ancestors, `cur` the
/// entries of the element being built, `name` its tag, `buf` its pending
/// text.
pub open spec fn parse_markup_rec(
    s: Seq<char>,
    i: int,
    stack: Seq<Frame>,
    cur: Seq<(Seq<char>, ValModel)>,
    name: Seq<char>,
    buf: Seq<char>,
) -> Result<ValModel, StructuralError>
    decreases s.len() - i,
{
    if i < 0 {
        Err(StructuralError::Malformed(0))
    } else if i >= s.len() {
        finalize_document(stack.len() as int, cur, buf)
    } else if s[i] != '<' {
        // A text run, up to the next tag.
        let j = scan_to(s, i, '<');
        proof {
            lemma_scan_to(s, i, '<');
            lemma_scan_to(s, i + 1, '<');
        }
        match markup_unescape(s.subrange(i, j)) {
            None => Err(StructuralError::Malformed(i as usize)),
            Some(t) => parse_markup_rec(s, j, stack, cur, name, t),
        }
    } else if i + 1 >= s.len() {
        Err(StructuralError::Malformed(i as usize))
    } else if s[i + 1] == '/' {
        // A closing tag: finalize the current element into its parent.
        let j = scan_to(s, i + 2, '>');
        proof {
            lemma_scan_to(s, i + 2, '>');
        }
        if j >= s.len() {
            Err(StructuralError::Malformed(i as usize))
        } else if s.subrange(i + 2, j) != name {
            Err(StructuralError::Malformed(i as usize))
        } else if stack.len() == 0 {
            Err(StructuralError::Malformed(i as usize))
        } else {
            let value = finalize_element(cur, buf);
            let parent = stack.last();
            parse_markup_rec(
                s,
                j + 1,
                stack.drop_last(),
                model_collapse_insert(parent.entries, name, value),
                parent.name,
                Seq::empty(),
            )
        }
    } else if s[i + 1] == '!' {
        if i + 3 < s.len() && s[i + 2] == '-' && s[i + 3] == '-' {
            // A comment.
            let j = scan_to3(s, i + 4, '-', '-', '>');
            proof {
                lemma_scan_to3(s, i + 4, '-', '-', '>');
            }
            if j >= s.len() {
                Err(StructuralError::Malformed(i as usize))
            } else {
                parse_markup_rec(s, j + 3, stack, cur, name, buf)
            }
        } else if i + 8 < s.len() && s[i + 2] == '[' && s[i + 3] == 'C' && s[i + 4] == 'D' && s[i
            + 5] == 'A' && s[i + 6] == 'T' && s[i + 7] == 'A' && s[i + 8] == '[' {
            // A CDATA section: its raw content replaces the text buffer.
            let j = scan_to3(s, i + 9, ']', ']', '>');
            proof {
                lemma_scan_to3(s, i + 9, ']', ']', '>');
            }
            if j >= s.len() {
                Err(StructuralError::Malformed(i as usize))
            } else {
                parse_markup_rec(s, j + 3, stack, cur, name, s.subrange(i + 9, j))
            }
        } else {
            // A declaration: skipped.
            let j = scan_to(s, i + 2, '>');
            proof {
                lemma_scan_to(s, i + 2, '>');
            }
            if j >= s.len() {
                Err(StructuralError::Malformed(i as usize))
            } else {
                parse_markup_rec(s, j + 1, stack, cur, name, buf)
            }
        }
    } else if s[i + 1] == '?' {
        // A processing instruction: skipped.
        let j = scan_to2(s, i + 2, '?', '>');
        proof {
            lemma_scan_to2(s, i + 2, '?', '>');
        }
        if j + 1 >= s.len() {
            Err(StructuralError::Malformed(i as usize))
        } else {
            parse_markup_rec(s, j + 2, stack, cur, name, buf)
        }
    } else {
        // An opening tag.
        let ne = scan_name_end(s, i + 1);
        proof {
            lemma_scan_name_end(s, i + 1);
        }
        if ne == i + 1 {
            Err(StructuralError::Malformed(i as usize))
        } else {
            let tag = s.subrange(i + 1, ne);
            match parse_attrs(s, ne, Seq::empty()) {
                Err(p) => Err(StructuralError::Malformed(p as usize)),
                Ok((attrs, next, self_close)) => {
                    proof {
                        lemma_parse_attrs_progress(s, ne, Seq::empty());
                    }
                    if self_close {
                        // An empty element closes at once.
                        let value = finalize_element(attrs, Seq::empty());
                        parse_markup_rec(
                            s,
                            next,
                            stack,
                            model_collapse_insert(cur, tag, value),
                            name,
                            Seq::empty(),
                        )
                    } else {
                        parse_markup_rec(
                            s,
                            next,
                            stack.push(Frame { entries: cur, name }),
                            attrs,
                            tag,
                            buf,
                        )
                    }
                },
            }
        }
    }
}

/// The text-level markup parse.
pub open spec fn parse_markup_model(s: Seq<char>) -> Result<ValModel, StructuralError> {
    parse_markup_rec(s, 0, Seq::empty(), Seq::empty(), Seq::empty(), Seq::empty())
}

/// The byte-level markup parse: an encoding error on invalid UTF-8,
/// otherwise the text-level parse.
pub open spec fn markup_parse_result(bytes: Seq<u8>) -> Result<ValModel, StructuralError> {
    if !vstd::utf8::valid_utf8(bytes) {
        Err(StructuralError::Encoding)
    } else {
        parse_markup_model(vstd::utf8::decode_utf8(bytes))
    }
}

// ---------------------------------------------------------------------------
// Executable parsing.
// ---------------------------------------------------------------------------

pub(crate) fn scan_to_exec(v: &Vec<char>, i: usize, c: char) -> (r: usize)
    requires
        i <= v@.len(),
    ensures
        r == scan_to(v@, i as int, c),
        i <= r <= v@.len(),
    decreases v@.len() - i,
{
    proof {
        lemma_scan_to(v@, i as int, c);
    }
    if i == v.len() {
        i
    } else if v[i] == c {
        i
    } else {
        scan_to_exec(v, i + 1, c)
    }
}

fn scan_to2_exec(v: &Vec<char>, i: usize, c1: char, c2: char) -> (r: usize)
    requires
        i <= v@.len(),
    ensures
        r == scan_to2(v@, i as int, c1, c2),
        i <= r <= v@.len(),
    decreases v@.len() - i,
{
    proof {
        lemma_scan_to2(v@, i as int, c1, c2);
    }
    if v.len() == 0 || i >= v.len() - 1 {
        v.len()
    } else if v[i] == c1 && v[i + 1] == c2 {
        i
    } else {
        scan_to2_exec(v, i + 1, c1, c2)
    }
}

fn scan_to3_exec(v: &Vec<char>, i: usize, c1: char, c2: char, c3: char) -> (r: usize)
    requires
        i <= v@.len(),
    ensures
        r == scan_to3(v@, i as int, c1, c2, c3),
        i <= r <= v@.len(),
    decreases v@.len() - i,
{
    proof {
        lemma_scan_to3(v@, i as int, c1, c2, c3);
    }
    if v.len() < 2 || i >= v.len() - 2 {
        v.len()
    } else if v[i] == c1 && v[i + 1] == c2 && v[i + 2] == c3 {
        i
    } else {
        scan_to3_exec(v, i + 1, c1, c2, c3)
    }
}

fn is_name_end_exec(c: char) -> (r: bool)
    ensures
        r == is_name_end(c),
{
    c == ' ' || c == '\t' || c == '\n' || c == '\r' || c == '/' || c == '>'
}

fn scan_name_end_exec(v: &Vec<char>, i: usize) -> (r: usize)
    requires
        i <= v@.len(),
    ensures
        r == scan_name_end(v@, i as int),
        i <= r <= v@.len(),
    decreases v@.len() - i,
{
    proof {
        lemma_scan_name_end(v@, i as int);
    }
    if i == v.len() {
        i
    } else if is_name_end_exec(v[i]) {
        i
    } else {
        scan_name_end_exec(v, i + 1)
    }
}

fn is_attr_name_end_exec(c: char) -> (r: bool)
    ensures
        r == is_attr_name_end(c),
{
    c == ' ' || c == '\t' || c == '\n' || c == '\r' || c == '=' || c == '/' || c == '>' || c == '<'
}

fn scan_attr_name_end_exec(v: &Vec<char>, i: usize) -> (r: usize)
    requires
        i <= v@.len(),
    ensures
        r == scan_attr_name_end(v@, i as int),
        i <= r <= v@.len(),
    decreases v@.len() - i,
{
    proof {
        lemma_scan_attr_name_end(v@, i as int);
    }
    if i == v.len() {
        i
    } else if is_attr_name_end_exec(v[i]) {
        i
    } else {
        scan_attr_name_end_exec(v, i + 1)
    }
}

fn all_blank_exec(v: &Vec<char>) -> (r: bool)
    ensures
        r == all_blank(v@),
{
    let n = v.len();
    let mut i: usize = 0;
    while i < n
        invariant
            i <= n == v@.len(),
            forall|j: int| 0 <= j < i ==> is_blank_char(#[trigger] v@[j]),
        decreases n - i,
    {
        let c = v[i];
        if !(c == ' ' || c == '\t' || c == '\n' || c == '\r') {
            return false;
        }
        i = i + 1;
    }
    true
}

/// Decodes the named entities of `v[start..end]`.
fn unescape_markup_range(v: &Vec<char>, start: usize, end: usize) -> (r: Option<Vec<char>>)
    requires
        start <= end <= v@.len(),
    ensures
        match r {
            Some(u) => markup_unescape(v@.subrange(start as int, end as int)) == Some(u@),
            None => markup_unescape(v@.subrange(start as int, end as int)) is None,
        },
    decreases end - start, 1int,
{
    let ghost s = v@.subrange(start as int, end as int);
    if start == end {
        proof {
            assert(s =~= Seq::<char>::empty());
        }
        return Some(Vec::new());
    }
    let c = v[start];
    proof {
        assert(s[0] == c);
    }
    if c == '&' {
        let remaining = end - start - 1;
        if remaining >= 1 && v[start + 1] == '#' {
            return unescape_numeric_ref(v, start, end);
        }
        proof {
            if s.len() >= 2 {
                assert(s[1] == v@[start + 1]);
            }
        }
        let (ch, width): (char, usize) = if remaining >= 4 && v[start + 1] == 'a' && v[start + 2]
            == 'm' && v[start + 3] == 'p' && v[start + 4] == ';' {
            ('&', 5)
        } else if remaining >= 3 && v[start + 1] == 'l' && v[start + 2] == 't' && v[start + 3]
            == ';' {
            ('<', 4)
        } else if remaining >= 3 && v[start + 1] == 'g' && v[start + 2] == 't' && v[start + 3]
            == ';' {
            ('>', 4)
        } else if remaining >= 5 && v[start + 1] == 'q' && v[start + 2] == 'u' && v[start + 3]
            == 'o' && v[start + 4] == 't' && v[start + 5] == ';' {
            ('"', 6)
        } else if remaining >= 5 && v[start + 1] == 'a' && v[start + 2] == 'p' && v[start + 3]
            == 'o' && v[start + 4] == 's' && v[start + 5] == ';' {
            ('\'', 6)
        } else {
            proof {
                assert(!entity_at(s.skip(1), seq!['a', 'm', 'p', ';'])) by {
                    if entity_at(s.skip(1), seq!['a', 'm', 'p', ';']) {
                        assert(s.skip(1).take(4) == seq!['a', 'm', 'p', ';']);
                        assert(s.skip(1)[0] == 'a' && s.skip(1)[1] == 'm' && s.skip(1)[2] == 'p'
                            && s.skip(1)[3] == ';');
                    }
                }
                assert(!entity_at(s.skip(1), seq!['l', 't', ';'])) by {
                    if entity_at(s.skip(1), seq!['l', 't', ';']) {
                        assert(s.skip(1)[0] == 'l' && s.skip(1)[1] == 't' && s.skip(1)[2] == ';');
                    }
                }
                assert(!entity_at(s.skip(1), seq!['g', 't', ';'])) by {
                    if entity_at(s.skip(1), seq!['g', 't', ';']) {
                        assert(s.skip(1)[0] == 'g' && s.skip(1)[1] == 't' && s.skip(1)[2] == ';');
                    }
                }
                assert(!entity_at(s.skip(1), seq!['q', 'u', 'o', 't', ';'])) by {
                    if entity_at(s.skip(1), seq!['q', 'u', 'o', 't', ';']) {
                        assert(s.skip(1)[0] == 'q' && s.skip(1)[1] == 'u' && s.skip(1)[2] == 'o'
                            && s.skip(1)[3] == 't' && s.skip(1)[4] == ';');
                    }
                }
                assert(!entity_at(s.skip(1), seq!['a', 'p', 'o', 's', ';'])) by {
                    if entity_at(s.skip(1), seq!['a', 'p', 'o', 's', ';']) {
                        assert(s.skip(1)[0] == 'a' && s.skip(1)[1] == 'p' && s.skip(1)[2] == 'o'
                            && s.skip(1)[3] == 's' && s.skip(1)[4] == ';');
                    }
                }
            }
            return None;
        };
        proof {
            assert(forall|k: int| 0 <= k < s.len() - 1 ==> s.skip(1)[k] == s[k + 1]);
            if width == 5 {
                assert(entity_at(s.skip(1), seq!['a', 'm', 'p', ';'])) by {
                    assert(s.skip(1).take(4) =~= seq!['a', 'm', 'p', ';']);
                }
            }
            if width == 4 && ch == '<' {
                assert(entity_at(s.skip(1), seq!['l', 't', ';'])) by {
                    assert(s.skip(1).take(3) =~= seq!['l', 't', ';']);
                }
            }
            if width == 4 && ch == '>' {
                assert(!entity_at(s.skip(1), seq!['a', 'm', 'p', ';'])) by {
                    if entity_at(s.skip(1), seq!['a', 'm', 'p', ';']) {
                        assert(s.skip(1)[0] == 'a');
                    }
                }
                assert(!entity_at(s.skip(1), seq!['l', 't', ';'])) by {
                    if entity_at(s.skip(1), seq!['l', 't', ';']) {
                        assert(s.skip(1)[0] == 'l');
                    }
                }
                assert(entity_at(s.skip(1), seq!['g', 't', ';'])) by {
                    assert(s.skip(1).take(3) =~= seq!['g', 't', ';']);
                }
            }
            if width == 6 && ch == '"' {
                assert(!entity_at(s.skip(1), seq!['a', 'm', 'p', ';'])) by {
                    if entity_at(s.skip(1), seq!['a', 'm', 'p', ';']) {
                        assert(s.skip(1)[0] == 'a');
                    }
                }
                assert(!entity_at(s.skip(1), seq!['l', 't', ';'])) by {
                    if entity_at(s.skip(1), seq!['l', 't', ';']) {
                        assert(s.skip(1)[0] == 'l');
                    }
                }
                assert(!entity_at(s.skip(1), seq!['g', 't', ';'])) by {
                    if entity_at(s.skip(1), seq!['g', 't', ';']) {
                        assert(s.skip(1)[0] == 'g');
                    }
                }
                assert(entity_at(s.skip(1), seq!['q', 'u', 'o', 't', ';'])) by {
                    assert(s.skip(1).take(5) =~= seq!['q', 'u', 'o', 't', ';']);
                }
            }
            if width == 6 && ch == '\'' {
                assert(!entity_at(s.skip(1), seq!['a', 'm', 'p', ';'])) by {
                    if entity_at(s.skip(1), seq!['a', 'm', 'p', ';']) {
                        assert(s.skip(1)[1] == 'm');
                    }
                }
                assert(!entity_at(s.skip(1), seq!['l', 't', ';'])) by {
                    if entity_at(s.skip(1), seq!['l', 't', ';']) {
                        assert(s.skip(1)[0] == 'l');
                    }
                }
                assert(!entity_at(s.skip(1), seq!['g', 't', ';'])) by {
                    if entity_at(s.skip(1), seq!['g', 't', ';']) {
                        assert(s.skip(1)[0] == 'g');
                    }
                }
                assert(!entity_at(s.skip(1), seq!['q', 'u', 'o', 't', ';'])) by {
                    if entity_at(s.skip(1), seq!['q', 'u', 'o', 't', ';']) {
                        assert(s.skip(1)[0] == 'q');
                    }
                }
                assert(entity_at(s.skip(1), seq!['a', 'p', 'o', 's', ';'])) by {
                    assert(s.skip(1).take(5) =~= seq!['a', 'p', 'o', 's', ';']);
                }
            }
        }
        match unescape_markup_range(v, start + width, end) {
            None => {
                proof {
                    assert(s.skip(width as int) =~= v@.subrange(start + width as int, end as int));
                }
                None
            },
            Some(mut rest) => {
                proof {
                    assert(s.skip(width as int) =~= v@.subrange(start + width as int, end as int));
                }
                let ghost restpre = rest@;
                rest.insert(0, ch);
                proof {
                    assert(rest@ =~= seq![ch] + restpre);
                }
                Some(rest)
            },
        }
    } else {
        match unescape_markup_range(v, start + 1, end) {
            None => {
                proof {
                    assert(s.skip(1) =~= v@.subrange(start + 1 as int, end as int));
                }
                None
            },
            Some(mut rest) => {
                proof {
                    assert(s.skip(1) =~= v@.subrange(start + 1 as int, end as int));
                }
                let ghost restpre = rest@;
                rest.insert(0, c);
                proof {
                    assert(rest@ =~= seq![c] + restpre);
                }
                Some(rest)
            },
        }
    }
}

// ---------------------------------------------------------------------------
// The serialize specification.
// ---------------------------------------------------------------------------

/// An entry carrying the attribute marker prefix.
pub open spec fn is_attr_entry(e: (Seq<char>, ValModel)) -> bool {
    e.0.len() > 0 && e.0[0] == '@'
}

/// The reserved text-content entry.
pub open spec fn is_text_entry(e: (Seq<char>, ValModel)) -> bool {
    e.0 == text_key()
}

/// An entry rendered as a named child element.
pub open spec fn is_child_entry(e: (Seq<char>, ValModel)) -> bool {
    !is_attr_entry(e) && !is_text_entry(e)
}

pub open spec fn has_child_entry(entries: Seq<(Seq<char>, ValModel)>) -> bool {
    exists|k: int| 0 <= k < entries.len() && is_child_entry(#[trigger] entries[k])
}

/// The element's inline text: a text-valued entry under the reserved key.
pub open spec fn inline_text(entries: Seq<(Seq<char>, ValModel)>) -> Option<Seq<char>> {
    match crate::value::model_map_get(entries, text_key()) {
        Some(ValModel::Text(t)) => Some(t),
        _ => None,
    }
}

/// One attribute as rendered on an opening tag, marker stripped, value in
/// its natural text form, escaped.
pub open spec fn attr_text(e: (Seq<char>, ValModel)) -> Seq<char> {
    seq![' '] + e.0.skip(1) + seq!['=', '"'] + markup_escape(scalar_raw_text(e.1)) + seq!['"']
}

/// The rendered attributes of an element, in entry order. Every
/// scalar-valued marker entry is rendered — deliberately not only the
/// text-valued ones: a parsed attribute value is scalar-inferred, so
/// rendering every scalar is what lets attributes survive a round trip. A
/// sequence- or map-valued marker entry has no attribute form and is
/// omitted.
pub open spec fn attrs_text(entries: Seq<(Seq<char>, ValModel)>, k: int) -> Seq<char>
    decreases entries.len() - k,
{
    if k < 0 || k >= entries.len() {
        Seq::empty()
    } else {
        (if is_attr_entry(entries[k]) && is_scalar_model(entries[k].1) {
            attr_text(entries[k])
        } else {
            Seq::empty()
        }) + attrs_text(entries, k + 1)
    }
}

/// The markup text of a value rendered under an optional tag name: maps
/// become elements (attributes from marker entries, children from the rest,
/// inline text from the reserved key, a childless textless element
/// self-closes), sequences render one sibling per item under the same name,
/// scalars render as `<name>text</name>` or bare escaped text, and a null
/// with a name self-closes.
pub open spec fn markup_value_text(m: ValModel, name: Option<Seq<char>>) -> Seq<char>
    decreases m, 2int, 0int,
{
    match m {
        ValModel::Mapping(entries) => element_text(
            entries,
            match name {
                Some(t) => t,
                None => wrapper_tag(),
            },
        ),
        ValModel::Sequence(items) => seq_items_text(items, 0, name),
        ValModel::Null => match name {
            Some(t) => seq!['<'] + t + seq!['/', '>'],
            None => Seq::empty(),
        },
        _ => match name {
            Some(t) => seq!['<'] + t + seq!['>'] + markup_escape(scalar_raw_text(m)) + seq![
                '<',
                '/',
            ] + t + seq!['>'],
            None => markup_escape(scalar_raw_text(m)),
        },
    }
}

/// One element's text under a fixed tag.
pub open spec fn element_text(entries: Seq<(Seq<char>, ValModel)>, tag: Seq<char>) -> Seq<char>
    decreases entries, entries.len() + 1, 0int,
{
    let attrs = attrs_text(entries, 0);
    let text = inline_text(entries);
    if !has_child_entry(entries) && text is None {
        seq!['<'] + tag + attrs + seq!['/', '>']
    } else {
        seq!['<'] + tag + attrs + seq!['>'] + children_text(entries, 0) + (match text {
            Some(t) => markup_escape(t),
            None => Seq::empty(),
        }) + seq!['<', '/'] + tag + seq!['>']
    }
}

/// The rendered children of an element, in entry order; a sequence-valued
/// child renders one sibling element per item.
pub open spec fn children_text(entries: Seq<(Seq<char>, ValModel)>, k: int) -> Seq<char>
    decreases entries, entries.len() - k, 2int,
{
    if k < 0 || k >= entries.len() {
        Seq::empty()
    } else {
        (if is_child_entry(entries[k]) {
            match entries[k].1 {
                ValModel::Sequence(items) => seq_items_text(items, 0, Some(entries[k].0)),
                _ => markup_value_text(entries[k].1, Some(entries[k].0)),
            }
        } else {
            Seq::empty()
        }) + children_text(entries, k + 1)
    }
}

/// Sibling elements for the items of a sequence, all under one name.
pub open spec fn seq_items_text(items: Seq<ValModel>, k: int, name: Option<Seq<char>>) -> Seq<
    char,
>
    decreases items, items.len() - k, 0int,
{
    if k < 0 || k >= items.len() {
        Seq::empty()
    } else {
        markup_value_text(items[k], name) + seq_items_text(items, k + 1, name)
    }
}

/// The whole document's text for a canonical value.
pub open spec fn markup_text(m: ValModel) -> Seq<char> {
    markup_value_text(m, None)
}

/// The frame models of an executable element stack.
pub open spec fn frames_view(st: Seq<(Vec<(String, Value)>, String)>) -> Seq<Frame> {
    Seq::new(
        st.len(),
        |k: int| Frame { entries: crate::value::entries_view(st[k].0@), name: st[k].1@ },
    )
}

/// Pins the hexadecimal scan.
proof fn lemma_pin_scan_hex(s: Seq<char>, i: int, j: int)
    requires
        0 <= i <= j <= s.len(),
        forall|k: int| i <= k < j ==> crate::lines::is_hex_digit(#[trigger] s[k]),
        j == s.len() || !crate::lines::is_hex_digit(s[j]),
    ensures
        scan_hex(s, i) == j,
{
    lemma_scan_hex(s, i);
    let r = scan_hex(s, i);
    if r < j {
        assert(!crate::lines::is_hex_digit(s[r]));
    }
    if r > j {
        assert(crate::lines::is_hex_digit(s[j]));
    }
}

/// Whether the character continues a numeric reference of the given kind.
fn is_ref_digit(c: char, hex: bool) -> (r: bool)
    ensures
        r == if hex {
            crate::lines::is_hex_digit(c)
        } else {
            crate::scalar::is_ascii_digit(c)
        },
{
    if hex {
        crate::lines::is_hex_digit_exec(c)
    } else {
        let u = c as u32;
        48 <= u && u <= 57
    }
}

/// Decodes one decimal or hexadecimal character reference and the rest of
/// the range, mirroring the specification.
#[verifier::rlimit(100)]
#[verifier::spinoff_prover]
#[verifier::loop_isolation(false)]
fn unescape_numeric_ref(v: &Vec<char>, start: usize, end: usize) -> (r: Option<Vec<char>>)
    requires
        start + 2 <= end <= v@.len(),
        v@[start as int] == '&',
        v@[start + 1] == '#',
    ensures
        match r {
            Some(u) => markup_unescape(v@.subrange(start as int, end as int)) == Some(u@),
            None => markup_unescape(v@.subrange(start as int, end as int)) is None,
        },
    decreases end - start, 0int,
{
    let ghost s = v@.subrange(start as int, end as int);
    proof {
        assert(forall|k: int| 0 <= k < s.len() ==> s[k] == v@[start + k]);
        assert(s[0] == '&');
        assert(s[1] == '#');
    }
    let hex = end - start >= 3 && (v[start + 2] == 'x' || v[start + 2] == 'X');
    let dstart = if hex {
        start + 3
    } else {
        start + 2
    };
    let ghost k0 = dstart - start;
    let mut j = dstart;
    while j < end && is_ref_digit(v[j], hex)
        invariant
            dstart <= j <= end,
            forall|k: int|
                dstart <= k < j ==> if hex {
                    crate::lines::is_hex_digit(#[trigger] v@[k])
                } else {
                    crate::scalar::is_ascii_digit(#[trigger] v@[k])
                },
        decreases end - j,
    {
        j = j + 1;
    }
    let ghost e = (j - start) as int;
    proof {
        if hex {
            assert forall|k: int| k0 <= k < e implies crate::lines::is_hex_digit(
                #[trigger] s[k],
            ) by {
                assert(s[k] == v@[start + k]);
            }
            assert(e == s.len() || !crate::lines::is_hex_digit(s[e])) by {
                if j < end {
                    assert(s[e] == v@[j as int]);
                }
            }
            lemma_pin_scan_hex(s, k0, e);
        } else {
            assert forall|k: int| k0 <= k < e implies crate::scalar::is_ascii_digit(
                #[trigger] s[k],
            ) by {
                assert(s[k] == v@[start + k]);
            }
            assert(e == s.len() || !crate::scalar::is_ascii_digit(s[e])) by {
                if j < end {
                    assert(s[e] == v@[j as int]);
                }
            }
            crate::lines::lemma_pin_scan_digits(s, k0, e);
        }
    }
    if j == dstart {
        return None;
    }
    if j == end {
        return None;
    }
    if !(v[j] == ';') {
        proof {
            assert(s[e] == v@[j as int]);
        }
        return None;
    }
    proof {
        assert(s[e] == ';');
    }
    // Skip leading zeros.
    let mut z = dstart;
    while z < j && v[z] == '0'
        invariant
            dstart <= z <= j,
            forall|k: int| dstart <= k < z ==> #[trigger] v@[k] == '0',
        decreases j - z,
    {
        z = z + 1;
    }
    let ghost run = s.subrange(k0, e);
    let ghost zeros = s.subrange(k0, (z - start) as int);
    let ghost sig = s.subrange((z - start) as int, e);
    proof {
        assert(run =~= zeros + sig);
        assert(forall|k: int| 0 <= k < zeros.len() ==> #[trigger] zeros[k] == '0') by {
            assert(forall|k: int|
                0 <= k < zeros.len() ==> zeros[k] == v@[dstart + k]);
        }
        if hex {
            lemma_hex_zeros(zeros, sig);
            assert(hex_digits_val(run) == hex_digits_val(sig));
        } else {
            lemma_dec_zeros(zeros, sig);
            assert(crate::scalar::digits_val(run) == crate::scalar::digits_val(sig));
        }
    }
    let cap: usize = if hex {
        6
    } else {
        7
    };
    proof {
        assert(pow16(6) == 16777216) by {
            assert(pow16(0) == 1);
            assert(pow16(1) == 16);
            assert(pow16(2) == 256);
            assert(pow16(3) == 4096);
            assert(pow16(4) == 65536);
            assert(pow16(5) == 1048576);
        }
        assert(crate::scalar::pow10(7) == 10000000) by {
            assert(crate::scalar::pow10(0) == 1);
            assert(crate::scalar::pow10(1) == 10);
            assert(crate::scalar::pow10(2) == 100);
            assert(crate::scalar::pow10(3) == 1000);
            assert(crate::scalar::pow10(4) == 10000);
            assert(crate::scalar::pow10(5) == 100000);
            assert(crate::scalar::pow10(6) == 1000000);
        }
    }
    if j - z > cap {
        proof {
            assert(sig.len() == j - z);
            assert(sig[0] == v@[z as int]);
            assert(v@[z as int] != '0');
            if hex {
                assert(all_hex(sig)) by {
                    assert(forall|k: int|
                        0 <= k < sig.len() ==> sig[k] == #[trigger] v@[z + k]);
                }
                lemma_hex_sig_lower(sig);
                lemma_pow16_le(6, sig.len() - 1);
                assert(hex_digits_val(sig) >= 16777216);
            } else {
                assert(crate::scalar::all_digits(sig)) by {
                    assert(forall|k: int|
                        0 <= k < sig.len() ==> sig[k] == #[trigger] v@[z + k]);
                }
                lemma_dec_sig_lower(sig);
                lemma_pow10_le(7, sig.len() - 1);
                assert(crate::scalar::digits_val(sig) >= 10000000);
            }
            assert(!valid_code(
                if hex {
                    hex_digits_val(run)
                } else {
                    crate::scalar::digits_val(run)
                },
            ));
        }
        return None;
    }
    // Compute the value.
    let mut acc: u32 = 0;
    let mut p = z;
    while p < j
        invariant
            z <= p <= j,
            j - z <= cap,
            acc as int == if hex {
                hex_digits_val(s.subrange((z - start) as int, (p - start) as int))
            } else {
                crate::scalar::digits_val(s.subrange((z - start) as int, (p - start) as int))
            },
            (acc as int) < (if hex {
                pow16((p - z) as int)
            } else {
                crate::scalar::pow10((p - z) as int)
            }),
        decreases j - p,
    {
        let ghost pre = s.subrange((z - start) as int, (p - start) as int);
        let d: u32 = if hex {
            crate::lines::hex_val_exec(v[p])
        } else {
            v[p] as u32 - 48
        };
        proof {
            let cur = s.subrange((z - start) as int, (p + 1 - start) as int);
            assert(cur.drop_last() =~= pre);
            assert(cur.last() == v@[p as int]);
            if hex {
                assert(d as int == crate::lines::hex_val(cur.last()));
                lemma_pow16_le((p - z) as int, 5);
                assert(acc as int * 16 + d < pow16((p - z) + 1)) by (nonlinear_arith)
                    requires
                        (acc as int) < pow16((p - z) as int),
                        d < 16,
                        pow16((p - z) + 1) == pow16((p - z) as int) * 16,
                ;
            } else {
                assert(crate::scalar::is_ascii_digit(v@[p as int]));
                assert(d as int == crate::scalar::digit_val(cur.last()));
                lemma_pow10_le((p - z) as int, 6);
                assert(acc as int * 10 + d < crate::scalar::pow10((p - z) + 1)) by (
                nonlinear_arith)
                    requires
                        (acc as int) < crate::scalar::pow10((p - z) as int),
                        d < 10,
                        crate::scalar::pow10((p - z) + 1) == crate::scalar::pow10(
                            (p - z) as int,
                        ) * 10,
                ;
            }
        }
        acc = if hex {
            acc * 16 + d
        } else {
            acc * 10 + d
        };
        p = p + 1;
    }
    proof {
        assert(s.subrange((z - start) as int, (j - start) as int) == sig);
        assert(acc as int == if hex {
            hex_digits_val(run)
        } else {
            crate::scalar::digits_val(run)
        });
    }
    if !(acc < 0xD800 || (0xE000 <= acc && acc <= 0x10FFFF)) {
        proof {
            assert(!valid_code(acc as int));
        }
        return None;
    }
    let ch = crate::text::char_from_code(acc);
    proof {
        let cv: int = acc as int;
        assert(valid_code(cv));
        assert((cv as u32) == acc);
        assert(ch == ((cv as u32) as char));
    }
    match unescape_markup_range(v, j + 1, end) {
        None => {
            proof {
                assert(s.skip(e + 1) =~= v@.subrange(j + 1 as int, end as int));
            }
            None
        },
        Some(mut rest) => {
            proof {
                assert(s.skip(e + 1) =~= v@.subrange(j + 1 as int, end as int));
            }
            let ghost restpre = rest@;
            rest.insert(0, ch);
            proof {
                assert(rest@ =~= seq![ch] + restpre);
            }
            Some(rest)
        },
    }
}

/// Ten to a power never shrinks as the power grows.
proof fn lemma_pow10_le(a: int, b: int)
    requires
        a <= b,
    ensures
        crate::scalar::pow10(a) <= crate::scalar::pow10(b),
    decreases b - a,
{
    if a < b {
        lemma_pow10_le(a, b - 1);
        crate::scalar::lemma_pow10_pos(b - 1);
    }
}

/// Reads the attribute list of an opening tag, mirroring the specification.
#[verifier::loop_isolation(false)]
fn parse_attrs_exec(v: &Vec<char>, start: usize, attrs: &mut Vec<(String, Value)>) -> (r: Result<
    (usize, bool),
    usize,
>)
    requires
        start <= v@.len(),
    ensures
        match r {
            Ok((next, self_close)) => parse_attrs(
                v@,
                start as int,
                crate::value::entries_view(old(attrs)@),
            ) == Ok::<_, int>(
                (crate::value::entries_view(final(attrs)@), next as int, self_close),
            ) && next <= v@.len(),
            Err(p) => parse_attrs(v@, start as int, crate::value::entries_view(old(attrs)@))
                == Err::<(Seq<(Seq<char>, ValModel)>, int, bool), int>(p as int),
        },
    decreases v@.len() - start,
{
    let n = v.len();
    let ghost gattrs = crate::value::entries_view(attrs@);
    if start == n {
        return Err(n);
    }
    let c = v[start];
    if c == ' ' || c == '\t' || c == '\n' || c == '\r' {
        return parse_attrs_exec(v, start + 1, attrs);
    }
    if c == '>' {
        return Ok((start + 1, false));
    }
    if c == '/' {
        if start + 1 < n && v[start + 1] == '>' {
            return Ok((start + 2, true));
        }
        return Err(start);
    }
    let ne = scan_attr_name_end_exec(v, start);
    if ne == n || !(v[ne] == '=') || ne == start {
        return Err(start);
    }
    if ne + 1 == n || !(v[ne + 1] == '"' || v[ne + 1] == '\'') {
        return Err(start);
    }
    let q = v[ne + 1];
    let ve = scan_to_exec(v, ne + 2, q);
    if ve == n {
        return Err(start);
    }
    let raw = match unescape_markup_range(v, ne + 2, ve) {
        Some(u) => u,
        None => {
            return Err(start);
        },
    };
    let mut keychars: Vec<char> = Vec::new();
    keychars.push('@');
    let mut namecopy = crate::scalar::copy_range(v, start, ne);
    keychars.append(&mut namecopy);
    proof {
        assert(keychars@ =~= seq!['@'] + v@.subrange(start as int, ne as int));
    }
    let key = crate::text::string_of_chars(&keychars);
    let val = crate::scalar::infer_scalar_range(&raw, 0, raw.len());
    proof {
        assert(raw@.subrange(0, raw@.len() as int) =~= raw@);
    }
    crate::value::map_insert(attrs, key, val);
    parse_attrs_exec(v, ve + 1, attrs)
}

/// Finalizes the element being built into its value.
fn finalize_element_exec(cur: Vec<(String, Value)>, buf: &Vec<char>) -> (r: Value)
    ensures
        r@ == finalize_element(crate::value::entries_view(cur@), buf@),
{
    let ghost gcur = crate::value::entries_view(cur@);
    if cur.len() == 0 {
        proof {
            assert(gcur.len() == 0);
        }
        let val = crate::scalar::infer_scalar_range(buf, 0, buf.len());
        proof {
            assert(buf@.subrange(0, buf@.len() as int) =~= buf@);
        }
        val
    } else if !all_blank_exec(buf) {
        let mut cur2 = cur;
        let mut keychars: Vec<char> = Vec::new();
        keychars.push('#');
        keychars.push('t');
        keychars.push('e');
        keychars.push('x');
        keychars.push('t');
        proof {
            assert(keychars@ =~= text_key());
        }
        let key = crate::text::string_of_chars(&keychars);
        let text = crate::text::string_of_chars(buf);
        crate::value::map_insert(&mut cur2, key, Value::Text(text));
        let ghost gcur2: Vec<(String, Value)> = cur2;
        let out = Value::Mapping(cur2);
        proof {
            crate::value::lemma_mapping_view(gcur2);
        }
        out
    } else {
        let ghost gcurv: Vec<(String, Value)> = cur;
        let out = Value::Mapping(cur);
        proof {
            crate::value::lemma_mapping_view(gcurv);
        }
        out
    }
}

/// Parses a markup byte stream into a single canonical value: attributes
/// become marker-prefixed entries, text and attribute values go through
/// scalar inference, same-named siblings collapse into a sequence, and a
/// sole root under the reserved wrapper tag is unwrapped. Mismatched or
/// unterminated tags, bad entities and a missing root fail the whole parse.
#[verifier::loop_isolation(false)]
pub fn parse_markup(input: &[u8]) -> (r: Result<Value, StructuralError>)
    ensures
        match r {
            Ok(v) => markup_parse_result(input@) == Ok::<ValModel, StructuralError>(v@),
            Err(e) => markup_parse_result(input@) == Err::<ValModel, StructuralError>(e),
        },
{
    let s = match crate::text::str_of_bytes(input) {
        Some(s) => s,
        None => {
            return Err(StructuralError::Encoding);
        },
    };
    let chars = crate::text::chars_of_str(s);
    let n = chars.len();
    let mut stack: Vec<(Vec<(String, Value)>, String)> = Vec::new();
    let mut cur: Vec<(String, Value)> = Vec::new();
    let mut name = String::new();
    let mut buf: Vec<char> = Vec::new();
    let mut i: usize = 0;
    proof {
        assert(frames_view(stack@) =~= Seq::<Frame>::empty());
        assert(crate::value::entries_view(cur@) =~= Seq::<(Seq<char>, ValModel)>::empty());
        assert(name@ =~= Seq::<char>::empty());
        assert(buf@ =~= Seq::<char>::empty());
    }
    while i < n
        invariant
            i <= n == chars@.len(),
            parse_markup_rec(
                chars@,
                i as int,
                frames_view(stack@),
                crate::value::entries_view(cur@),
                name@,
                buf@,
            ) == parse_markup_model(chars@),
        decreases n - i,
    {
        let c = chars[i];
        if c != '<' {
            let j = scan_to_exec(&chars, i, '<');
            proof {
                lemma_scan_to(chars@, i as int, '<');
                assert(j > i) by {
                    if j == i {
                        assert(chars@[i as int] == '<');
                    }
                }
            }
            match unescape_markup_range(&chars, i, j) {
                None => {
                    return Err(StructuralError::Malformed(i));
                },
                Some(t) => {
                    buf = t;
                },
            }
            i = j;
        } else if i + 1 == n {
            return Err(StructuralError::Malformed(i));
        } else if chars[i + 1] == '/' {
            let j = scan_to_exec(&chars, i + 2, '>');
            if j == n {
                return Err(StructuralError::Malformed(i));
            }
            let seg = crate::scalar::copy_range(&chars, i + 2, j);
            let namechars = crate::text::chars_of_str(name.as_str());
            if !crate::text::chars_eq(&seg, &namechars) {
                return Err(StructuralError::Malformed(i));
            }
            if stack.len() == 0 {
                return Err(StructuralError::Malformed(i));
            }
            let ghost gstack = frames_view(stack@);
            let ghost gname = name@;
            let value = finalize_element_exec(cur, &buf);
            let (parent_entries, parent_name) = match stack.pop() {
                Some(p) => p,
                None => {
                    proof {
                        assert(false);
                    }
                    return Err(StructuralError::Malformed(i));
                },
            };
            proof {
                assert(gstack.last().entries == crate::value::entries_view(parent_entries@));
                assert(gstack.last().name == parent_name@);
                assert(frames_view(stack@) =~= gstack.drop_last());
            }
            cur = parent_entries;
            crate::value::collapse_insert(&mut cur, name, value);
            name = parent_name;
            buf = Vec::new();
            proof {
                assert(buf@ =~= Seq::<char>::empty());
            }
            i = j + 1;
        } else if chars[i + 1] == '!' {
            if n - i > 3 && chars[i + 2] == '-' && chars[i + 3] == '-' {
                let j = scan_to3_exec(&chars, i + 4, '-', '-', '>');
                if j == n {
                    return Err(StructuralError::Malformed(i));
                }
                proof {
                    lemma_scan_to3(chars@, i + 4 as int, '-', '-', '>');
                }
                i = j + 3;
            } else if n - i > 8 && chars[i + 2] == '[' && chars[i + 3] == 'C' && chars[i + 4] == 'D'
                && chars[i + 5] == 'A' && chars[i + 6] == 'T' && chars[i + 7] == 'A' && chars[i + 8]
                == '[' {
                let j = scan_to3_exec(&chars, i + 9, ']', ']', '>');
                if j == n {
                    return Err(StructuralError::Malformed(i));
                }
                proof {
                    lemma_scan_to3(chars@, i + 9 as int, ']', ']', '>');
                }
                buf = crate::scalar::copy_range(&chars, i + 9, j);
                i = j + 3;
            } else {
                let j = scan_to_exec(&chars, i + 2, '>');
                if j == n {
                    return Err(StructuralError::Malformed(i));
                }
                i = j + 1;
            }
        } else if chars[i + 1] == '?' {
            let j = scan_to2_exec(&chars, i + 2, '?', '>');
            if j >= n - 1 {
                return Err(StructuralError::Malformed(i));
            }
            proof {
                lemma_scan_to2(chars@, i + 2 as int, '?', '>');
            }
            i = j + 2;
        } else {
            let ne = scan_name_end_exec(&chars, i + 1);
            if ne == i + 1 {
                return Err(StructuralError::Malformed(i));
            }
            let tagchars = crate::scalar::copy_range(&chars, i + 1, ne);
            let mut attrs: Vec<(String, Value)> = Vec::new();
            proof {
                assert(crate::value::entries_view(attrs@) =~= Seq::<
                    (Seq<char>, ValModel),
                >::empty());
            }
            let (next, self_close) = match parse_attrs_exec(&chars, ne, &mut attrs) {
                Ok(ns) => ns,
                Err(p) => {
                    return Err(StructuralError::Malformed(p));
                },
            };
            proof {
                lemma_parse_attrs_progress(chars@, ne as int, Seq::empty());
            }
            let tag = crate::text::string_of_chars(&tagchars);
            if self_close {
                let empty_buf: Vec<char> = Vec::new();
                proof {
                    assert(empty_buf@ =~= Seq::<char>::empty());
                }
                let value = finalize_element_exec(attrs, &empty_buf);
                crate::value::collapse_insert(&mut cur, tag, value);
                buf = Vec::new();
                proof {
                    assert(buf@ =~= Seq::<char>::empty());
                }
            } else {
                let ghost gstack = frames_view(stack@);
                stack.push((cur, name));
                proof {
                    assert(frames_view(stack@) =~= gstack.push(
                        Frame {
                            entries: crate::value::entries_view(stack@.last().0@),
                            name: stack@.last().1@,
                        },
                    ));
                }
                cur = attrs;
                name = tag;
            }
            i = next;
        }
    }
    // End of document.
    if stack.len() > 0 {
        return Err(StructuralError::Malformed(0));
    }
    if cur.len() == 1 {
        let ghost gcur = crate::value::entries_view(cur@);
        let unwrap = crate::text::str_eq(cur[0].0.as_str(), "root");
        proof {
            reveal_strlit("root");
            assert("root"@ =~= wrapper_tag());
        }
        if unwrap {
            let (_k, v) = match cur.pop() {
                Some(e) => e,
                None => {
                    proof {
                        assert(false);
                    }
                    return Err(StructuralError::UnsupportedRoot);
                },
            };
            proof {
                assert(v@ == gcur[0].1);
            }
            return Ok(v);
        }
        let ghost gcurv: Vec<(String, Value)> = cur;
        let out = Value::Mapping(cur);
        proof {
            crate::value::lemma_mapping_view(gcurv);
        }
        return Ok(out);
    }
    if cur.len() == 0 && !all_blank_exec(&buf) {
        let val = crate::scalar::infer_scalar_range(&buf, 0, buf.len());
        proof {
            assert(buf@.subrange(0, buf@.len() as int) =~= buf@);
            assert(crate::value::entries_view(cur@).len() == 0);
        }
        return Ok(val);
    }
    proof {
        if crate::value::entries_view(cur@).len() == 1 {
            assert(cur@.len() == 1);
        }
    }
    Err(StructuralError::UnsupportedRoot)
}

// ---------------------------------------------------------------------------
// Executable serialization.
// ---------------------------------------------------------------------------

/// Escaping one more character appends its escaped form.
proof fn lemma_markup_escape_snoc(s: Seq<char>, c: char)
    ensures
        markup_escape(s.push(c)) == markup_escape(s) + markup_escape_char(c),
    decreases s.len(),
{
    if s.len() == 0 {
        assert(s.push(c).drop_first() =~= s);
        assert(s.push(c)[0] == c);
        assert(markup_escape(s.push(c)) == markup_escape_char(c) + markup_escape(s));
        assert(markup_escape_char(c) + markup_escape(s) =~= markup_escape_char(c));
        assert(markup_escape(s) + markup_escape_char(c) =~= markup_escape_char(c));
    } else {
        lemma_markup_escape_snoc(s.drop_first(), c);
        assert(s.push(c).drop_first() =~= s.drop_first().push(c));
        assert(s.push(c)[0] == s[0]);
        assert(markup_escape(s.push(c)) == markup_escape_char(s[0]) + (markup_escape(
            s.drop_first(),
        ) + markup_escape_char(c)));
        assert(markup_escape_char(s[0]) + (markup_escape(s.drop_first()) + markup_escape_char(c))
            =~= (markup_escape_char(s[0]) + markup_escape(s.drop_first())) + markup_escape_char(c));
    }
}

/// Appends the escaped form of a text.
#[verifier::loop_isolation(false)]
fn push_markup_escaped(out: &mut Vec<char>, s: &Vec<char>)
    ensures
        final(out)@ == old(out)@ + markup_escape(s@),
{
    let n = s.len();
    let mut i: usize = 0;
    proof {
        assert(markup_escape(s@.take(0)) =~= Seq::<char>::empty());
        assert(out@ =~= out@ + markup_escape(s@.take(0)));
    }
    while i < n
        invariant
            i <= n,
            out@ == old(out)@ + markup_escape(s@.take(i as int)),
        decreases n - i,
    {
        let c = s[i];
        if c == '&' {
            out.push('&');
            out.push('a');
            out.push('m');
            out.push('p');
            out.push(';');
        } else if c == '<' {
            out.push('&');
            out.push('l');
            out.push('t');
            out.push(';');
        } else if c == '>' {
            out.push('&');
            out.push('g');
            out.push('t');
            out.push(';');
        } else if c == '"' {
            out.push('&');
            out.push('q');
            out.push('u');
            out.push('o');
            out.push('t');
            out.push(';');
        } else if c == '\'' {
            out.push('&');
            out.push('a');
            out.push('p');
            out.push('o');
            out.push('s');
            out.push(';');
        } else {
            out.push(c);
        }
        proof {
            lemma_markup_escape_snoc(s@.take(i as int), c);
            assert(s@.take(i + 1 as int) =~= s@.take(i as int).push(c));
            assert(out@ =~= old(out)@ + markup_escape(s@.take(i + 1 as int)));
        }
        i = i + 1;
    }
    proof {
        assert(s@.take(n as int) =~= s@);
    }
}

/// Escapes the five reserved markup characters of a text.
pub fn escape_xml(s: &str) -> (r: String)
    ensures
        r@ == markup_escape(s@),
{
    let cs = crate::text::chars_of_str(s);
    let mut out: Vec<char> = Vec::new();
    push_markup_escaped(&mut out, &cs);
    proof {
        assert(out@ =~= markup_escape(s@));
    }
    crate::text::string_of_chars(&out)
}

/// The model of an optional borrowed name.
pub open spec fn opt_name_view(name: Option<&Vec<char>>) -> Option<Seq<char>> {
    match name {
        Some(n) => Some(n@),
        None => None,
    }
}

/// Writes the attributes of an element.
#[verifier::loop_isolation(false)]
fn write_attrs(entries: &Vec<(String, Value)>, out: &mut Vec<char>)
    ensures
        final(out)@ == old(out)@ + attrs_text(crate::value::entries_view(entries@), 0),
{
    let ghost es = crate::value::entries_view(entries@);
    let n = entries.len();
    let mut k2: usize = 0;
    while k2 < n
        invariant
            k2 <= n == entries@.len(),
            out@ + attrs_text(es, k2 as int) == old(out)@ + attrs_text(es, 0),
        decreases n - k2,
    {
        let kc = crate::text::chars_of_str(entries[k2].0.as_str());
        let ghost out_before = out@;
        proof {
            assert(kc@ == es[k2 as int].0);
        }
        if kc.len() > 0 && kc[0] == '@' && crate::scalar::is_scalar_exec(&entries[k2].1) {
            out.push(' ');
            let mut stripped = crate::scalar::copy_range(&kc, 1, kc.len());
            out.append(&mut stripped);
            out.push('=');
            out.push('"');
            let raw = crate::scalar::render_scalar(&entries[k2].1);
            push_markup_escaped(out, &raw);
            out.push('"');
            proof {
                assert(kc@.subrange(1, kc@.len() as int) =~= es[k2 as int].0.skip(1));
                assert(out@ =~= out_before + attr_text(es[k2 as int]));
                assert(attrs_text(es, k2 as int) == attr_text(es[k2 as int]) + attrs_text(
                    es,
                    k2 + 1,
                ));
                assert(out@ + attrs_text(es, k2 + 1 as int) =~= out_before + attrs_text(
                    es,
                    k2 as int,
                ));
            }
        } else {
            proof {
                assert(!(is_attr_entry(es[k2 as int]) && is_scalar_model(es[k2 as int].1)));
                assert(attrs_text(es, k2 as int) == Seq::<char>::empty() + attrs_text(es, k2 + 1));
                assert(out@ + attrs_text(es, k2 + 1 as int) =~= out_before + attrs_text(
                    es,
                    k2 as int,
                ));
            }
        }
        k2 = k2 + 1;
    }
    proof {
        assert(attrs_text(es, n as int) =~= Seq::<char>::empty());
        assert(out@ + attrs_text(es, n as int) =~= out@);
    }
}

/// Writes the child elements of an element.
#[verifier::loop_isolation(false)]
fn write_children(entries: &Vec<(String, Value)>, out: &mut Vec<char>)
    ensures
        final(out)@ == old(out)@ + children_text(crate::value::entries_view(entries@), 0),
    decreases entries,
{
    let ghost es = crate::value::entries_view(entries@);
    let mut textkey: Vec<char> = Vec::new();
    textkey.push('#');
    textkey.push('t');
    textkey.push('e');
    textkey.push('x');
    textkey.push('t');
    proof {
        assert(textkey@ =~= text_key());
    }
    let n = entries.len();
    let mut k3: usize = 0;
    while k3 < n
        invariant
            k3 <= n == entries@.len(),
            textkey@ == text_key(),
            out@ + children_text(es, k3 as int) == old(out)@ + children_text(es, 0),
        decreases n - k3,
    {
        let kc = crate::text::chars_of_str(entries[k3].0.as_str());
        let is_attr = kc.len() > 0 && kc[0] == '@';
        let is_text = crate::text::chars_eq(&kc, &textkey);
        let ghost out_before = out@;
        proof {
            assert(kc@ == es[k3 as int].0);
        }
        if !is_attr && !is_text {
            match &entries[k3].1 {
                Value::Sequence(items) => {
                    let ghost gitems = es[k3 as int].1->Sequence_0;
                    proof {
                        assert(gitems =~= crate::value::values_view(items@));
                    }
                    let ni = items.len();
                    let mut j: usize = 0;
                    while j < ni
                        invariant
                            j <= ni == items@.len(),
                            gitems =~= crate::value::values_view(items@),
                            out@ + seq_items_text(gitems, j as int, Some(kc@)) == out_before
                                + seq_items_text(gitems, 0, Some(kc@)),
                        decreases ni - j,
                    {
                        let ghost before_item = out@;
                        write_value(&items[j], Some(&kc), out);
                        proof {
                            assert(seq_items_text(gitems, j as int, Some(kc@)) == markup_value_text(
                                gitems[j as int],
                                Some(kc@),
                            ) + seq_items_text(gitems, j + 1, Some(kc@)));
                            assert(out@ + seq_items_text(gitems, j + 1 as int, Some(kc@))
                                =~= before_item + seq_items_text(gitems, j as int, Some(kc@)));
                        }
                        j = j + 1;
                    }
                    proof {
                        assert(seq_items_text(gitems, ni as int, Some(kc@)) =~= Seq::<
                            char,
                        >::empty());
                        assert(out@ =~= out_before + seq_items_text(gitems, 0, Some(kc@)));
                        assert(children_text(es, k3 as int) == seq_items_text(gitems, 0, Some(kc@))
                            + children_text(es, k3 + 1));
                        assert(out@ + children_text(es, k3 + 1 as int) =~= out_before
                            + children_text(es, k3 as int));
                    }
                },
                other => {
                    write_value(other, Some(&kc), out);
                    proof {
                        assert(children_text(es, k3 as int) == markup_value_text(
                            es[k3 as int].1,
                            Some(kc@),
                        ) + children_text(es, k3 + 1));
                        assert(out@ + children_text(es, k3 + 1 as int) =~= out_before
                            + children_text(es, k3 as int));
                    }
                },
            }
        } else {
            proof {
                assert(!is_child_entry(es[k3 as int]));
                assert(children_text(es, k3 as int) == Seq::<char>::empty() + children_text(
                    es,
                    k3 + 1,
                ));
                assert(out@ + children_text(es, k3 + 1 as int) =~= out_before + children_text(
                    es,
                    k3 as int,
                ));
            }
        }
        k3 = k3 + 1;
    }
    proof {
        assert(children_text(es, n as int) =~= Seq::<char>::empty());
        assert(out@ + children_text(es, n as int) =~= out@);
    }
}

/// Writes one value as markup under an optional tag name.
#[verifier::rlimit(100)]
#[verifier::loop_isolation(false)]
fn write_value(v: &Value, name: Option<&Vec<char>>, out: &mut Vec<char>)
    ensures
        final(out)@ == old(out)@ + markup_value_text(v@, opt_name_view(name)),
    decreases v,
{
    let ghost gname = opt_name_view(name);
    match v {
        Value::Mapping(entries) => {
            let ghost es = crate::value::entries_view(entries@);
            proof {
                crate::value::lemma_mapping_view(*entries);
                assert(v@->Mapping_0 =~= es);
            }
            let n = entries.len();
            let tagchars: Vec<char> = match name {
                Some(nm) => crate::scalar::copy_range(nm, 0, nm.len()),
                None => {
                    let mut t: Vec<char> = Vec::new();
                    t.push('r');
                    t.push('o');
                    t.push('o');
                    t.push('t');
                    proof {
                        assert(t@ =~= wrapper_tag());
                    }
                    t
                },
            };
            proof {
                match name {
                    Some(nm) => {
                        assert(nm@.subrange(0, nm@.len() as int) =~= nm@);
                    },
                    None => {},
                }
            }
            let ghost gtag = tagchars@;
            let mut textkey: Vec<char> = Vec::new();
            textkey.push('#');
            textkey.push('t');
            textkey.push('e');
            textkey.push('x');
            textkey.push('t');
            proof {
                assert(textkey@ =~= text_key());
            }
            let mut has_child = false;
            let mut k: usize = 0;
            while k < n
                invariant
                    k <= n == entries@.len(),
                    textkey@ == text_key(),
                    has_child == exists|j: int| 0 <= j < k && is_child_entry(#[trigger] es[j]),
                decreases n - k,
            {
                let kc = crate::text::chars_of_str(entries[k].0.as_str());
                let is_attr = kc.len() > 0 && kc[0] == '@';
                let is_text = crate::text::chars_eq(&kc, &textkey);
                proof {
                    assert(kc@ == es[k as int].0);
                    assert(is_attr == is_attr_entry(es[k as int]));
                    assert(is_text == is_text_entry(es[k as int]));
                }
                if !is_attr && !is_text {
                    proof {
                        assert(is_child_entry(es[k as int]));
                    }
                    has_child = true;
                }
                k = k + 1;
            }
            proof {
                assert(has_child == has_child_entry(es));
            }
            let textstring = crate::text::string_of_chars(&textkey);
            let text_val: Option<&String> = match crate::value::map_get(
                entries,
                textstring.as_str(),
            ) {
                Some(Value::Text(t)) => Some(t),
                _ => None,
            };
            proof {
                match text_val {
                    Some(t) => {
                        assert(inline_text(es) == Some(t@));
                    },
                    None => {
                        assert(inline_text(es) is None);
                    },
                }
            }
            out.push('<');
            let mut tagcopy = crate::scalar::copy_range(&tagchars, 0, tagchars.len());
            out.append(&mut tagcopy);
            proof {
                assert(tagchars@.subrange(0, tagchars@.len() as int) =~= gtag);
            }
            write_attrs(entries, out);
            let self_close = !has_child && text_val.is_none();
            if self_close {
                out.push('/');
                out.push('>');
                proof {
                    assert(out@ =~= old(out)@ + (seq!['<'] + gtag + attrs_text(es, 0) + seq![
                        '/',
                        '>',
                    ]));
                    assert(markup_value_text(v@, gname) == element_text(es, gtag));
                }
                return ;
            }
            out.push('>');
            write_children(entries, out);
            match text_val {
                Some(t) => {
                    let tc = crate::text::chars_of_str(t.as_str());
                    push_markup_escaped(out, &tc);
                },
                None => {},
            }
            out.push('<');
            out.push('/');
            let mut tagcopy2 = crate::scalar::copy_range(&tagchars, 0, tagchars.len());
            out.append(&mut tagcopy2);
            out.push('>');
            proof {
                assert(tagchars@.subrange(0, tagchars@.len() as int) =~= gtag);
                let text_part = match inline_text(es) {
                    Some(t) => markup_escape(t),
                    None => Seq::<char>::empty(),
                };
                assert(out@ =~= old(out)@ + (seq!['<'] + gtag + attrs_text(es, 0) + seq!['>']
                    + children_text(es, 0) + text_part + seq!['<', '/'] + gtag + seq!['>']));
                assert(markup_value_text(v@, gname) == element_text(es, gtag));
            }
        },
        Value::Sequence(items) => {
            let ghost gitems = v@->Sequence_0;
            proof {
                crate::value::lemma_sequence_view(*items);
                assert(gitems =~= crate::value::values_view(items@));
            }
            let ni = items.len();
            let mut j: usize = 0;
            while j < ni
                invariant
                    j <= ni == items@.len(),
                    gitems =~= crate::value::values_view(items@),
                    out@ + seq_items_text(gitems, j as int, gname) == old(out)@ + seq_items_text(
                        gitems,
                        0,
                        gname,
                    ),
                decreases ni - j,
            {
                let ghost before_item = out@;
                write_value(&items[j], name, out);
                proof {
                    assert(seq_items_text(gitems, j as int, gname) == markup_value_text(
                        gitems[j as int],
                        gname,
                    ) + seq_items_text(gitems, j + 1, gname));
                    assert(out@ + seq_items_text(gitems, j + 1 as int, gname) =~= before_item
                        + seq_items_text(gitems, j as int, gname));
                }
                j = j + 1;
            }
            proof {
                assert(seq_items_text(gitems, ni as int, gname) =~= Seq::<char>::empty());
                assert(out@ =~= old(out)@ + seq_items_text(gitems, 0, gname));
            }
        },
        Value::Null => {
            match name {
                Some(nm) => {
                    out.push('<');
                    let mut tagcopy = crate::scalar::copy_range(nm, 0, nm.len());
                    out.append(&mut tagcopy);
                    out.push('/');
                    out.push('>');
                    proof {
                        assert(nm@.subrange(0, nm@.len() as int) =~= nm@);
                        assert(out@ =~= old(out)@ + (seq!['<'] + nm@ + seq!['/', '>']));
                    }
                },
                None => {},
            }
        },
        other => {
            let raw = crate::scalar::render_scalar(other);
            match name {
                Some(nm) => {
                    out.push('<');
                    let mut tagcopy = crate::scalar::copy_range(nm, 0, nm.len());
                    out.append(&mut tagcopy);
                    out.push('>');
                    push_markup_escaped(out, &raw);
                    out.push('<');
                    out.push('/');
                    let mut tagcopy2 = crate::scalar::copy_range(nm, 0, nm.len());
                    out.append(&mut tagcopy2);
                    out.push('>');
                    proof {
                        assert(nm@.subrange(0, nm@.len() as int) =~= nm@);
                        assert(out@ =~= old(out)@ + (seq!['<'] + nm@ + seq!['>'] + markup_escape(
                            scalar_raw_text(v@),
                        ) + seq!['<', '/'] + nm@ + seq!['>']));
                    }
                },
                None => {
                    push_markup_escaped(out, &raw);
                },
            }
        },
    }
}

/// The escaped form of a text never holds an opening angle bracket.
proof fn lemma_markup_escape_no_lt(s: Seq<char>)
    ensures
        forall|x: int|
            0 <= x < markup_escape(s).len() ==> #[trigger] markup_escape(s)[x] != '<',
    decreases s.len(),
{
    if s.len() > 0 {
        lemma_markup_escape_no_lt(s.drop_first());
        let e = markup_escape(s);
        let h = markup_escape_char(s[0]);
        assert(e == h + markup_escape(s.drop_first()));
        assert forall|x: int| 0 <= x < e.len() implies #[trigger] e[x] != '<' by {
            if x < h.len() {
                assert(e[x] == h[x]);
            } else {
                assert(e[x] == markup_escape(s.drop_first())[x - h.len()]);
            }
        }
    }
}

/// The markup round trip for a scalar document, modulo re-inference: the
/// serialized form of a non-null scalar with non-blank text parses back to
/// the scalar its natural text infers to. For every non-text scalar that is
/// the scalar itself.
pub proof fn lemma_markup_scalar_round_trip(m: ValModel)
    requires
        is_scalar_model(m),
        crate::value::model_wf(m),
        !(m is Null),
        !all_blank(scalar_raw_text(m)),
    ensures
        parse_markup_model(markup_text(m)) == Ok::<ValModel, StructuralError>(
            spec_infer(scalar_raw_text(m)),
        ),
        !(m is Text) ==> parse_markup_model(markup_text(m)) == Ok::<ValModel, StructuralError>(m),
{
    let raw = scalar_raw_text(m);
    let e = markup_escape(raw);
    assert(markup_text(m) == e);
    assert(raw.len() > 0) by {
        if raw.len() == 0 {
            assert(all_blank(raw));
        }
    }
    assert(e.len() > 0) by {
        assert(e == markup_escape_char(raw[0]) + markup_escape(raw.drop_first()));
        assert(markup_escape_char(raw[0]).len() >= 1);
    }
    lemma_markup_escape_no_lt(raw);
    assert(e[0] != '<');
    lemma_scan_to(e, 0, '<');
    let j = scan_to(e, 0, '<');
    assert(j == e.len()) by {
        if j < e.len() {
            assert(e[j] == '<');
        }
    }
    assert(e.subrange(0, j) =~= e);
    lemma_markup_unescape_escape(raw);
    assert(parse_markup_rec(e, 0, Seq::empty(), Seq::empty(), Seq::empty(), Seq::empty())
        == parse_markup_rec(e, j, Seq::empty(), Seq::empty(), Seq::empty(), raw));
    assert(parse_markup_rec(e, j, Seq::empty(), Seq::empty(), Seq::empty(), raw)
        == finalize_document(0, Seq::empty(), raw));
    assert(finalize_document(0, Seq::empty(), raw) == Ok::<ValModel, StructuralError>(
        spec_infer(raw),
    ));
    if !(m is Text) {
        crate::scalar::lemma_reinfer_scalar(m);
    }
}

/// Pins the name scan: a run of non-ending characters followed by an
/// ending one stops exactly there.
proof fn lemma_pin_scan_name(s: Seq<char>, i: int, j: int)
    requires
        0 <= i <= j < s.len(),
        forall|k: int| i <= k < j ==> !is_name_end(#[trigger] s[k]),
        is_name_end(s[j]),
    ensures
        scan_name_end(s, i) == j,
{
    lemma_scan_name_end(s, i);
    let r = scan_name_end(s, i);
    if r < j {
        assert(is_name_end(s[r]));
    }
    if r > j {
        assert(!is_name_end(s[j]));
    }
}

/// Pins the character scan likewise.
proof fn lemma_pin_scan_to(s: Seq<char>, i: int, j: int, c: char)
    requires
        0 <= i <= j < s.len(),
        forall|k: int| i <= k < j ==> #[trigger] s[k] != c,
        s[j] == c,
    ensures
        scan_to(s, i, c) == j,
{
    lemma_scan_to(s, i, c);
    let r = scan_to(s, i, c);
    if r < j {
        assert(s[r] == c);
    }
    if r > j {
        assert(s[j] != c);
    }
}

/// A character that may stand in a tag name the bridge writes and reads
/// back unchanged.
pub open spec fn is_tag_char(c: char) -> bool {
    &&& !is_name_end(c)
    &&& c != '<'
    &&& c != '&'
    &&& c != '='
    &&& c != '"'
    &&& c != '\''
    &&& c != '?'
    &&& c != '!'
}

/// A key usable as a tag name: non-empty tag characters, not the attribute
/// marker, not the reserved text key.
pub open spec fn tag_name_ok(k: Seq<char>) -> bool {
    &&& k.len() > 0
    &&& k[0] != '@'
    &&& k != text_key()
    &&& forall|x: int| 0 <= x < k.len() ==> is_tag_char(#[trigger] k[x])
}

/// A flat document: at least one entry, every key a distinct usable tag
/// name, every value a scalar.
pub open spec fn flat_doc_ok(entries: Seq<(Seq<char>, ValModel)>) -> bool {
    &&& entries.len() >= 1
    &&& (forall|k: int|
        0 <= k < entries.len() ==> tag_name_ok(#[trigger] entries[k].0) && is_scalar_model(
            entries[k].1,
        ))
}

/// The entries with each scalar re-inferred from its natural text.
pub open spec fn reinfer_entries(entries: Seq<(Seq<char>, ValModel)>) -> Seq<
    (Seq<char>, ValModel),
> {
    Seq::new(entries.len(), |k: int| (entries[k].0, spec_infer(scalar_raw_text(entries[k].1))))
}

/// The attributes of an element with no marker entries render as nothing.
proof fn lemma_attrs_text_empty(entries: Seq<(Seq<char>, ValModel)>, k: int)
    requires
        0 <= k <= entries.len(),
        forall|j: int| 0 <= j < entries.len() ==> !is_attr_entry(#[trigger] entries[j]),
    ensures
        attrs_text(entries, k) == Seq::<char>::empty(),
    decreases entries.len() - k,
{
    if k < entries.len() {
        lemma_attrs_text_empty(entries, k + 1);
        assert(attrs_text(entries, k) =~= Seq::<char>::empty());
    }
}

/// One child element's text.
pub open spec fn child_text(e: (Seq<char>, ValModel)) -> Seq<char> {
    if e.1 is Null {
        seq!['<'] + e.0 + seq!['/', '>']
    } else {
        seq!['<'] + e.0 + seq!['>'] + markup_escape(scalar_raw_text(e.1)) + seq!['<', '/'] + e.0
            + seq!['>']
    }
}

/// For a flat document the children render as the concatenation of the
/// child texts.
proof fn lemma_children_text_flat(entries: Seq<(Seq<char>, ValModel)>, k: int)
    requires
        0 <= k <= entries.len(),
        flat_doc_ok(entries),
    ensures
        children_text(entries, k) == children_cat(entries, k),
    decreases entries.len() - k,
{
    if k < entries.len() {
        lemma_children_text_flat(entries, k + 1);
        assert(tag_name_ok(entries[k].0));
        assert(is_child_entry(entries[k])) by {
            assert(is_tag_char(entries[k].0[0]));
        }
        let v = entries[k].1;
        assert(!(v is Sequence) && !(v is Mapping));
        assert(markup_value_text(v, Some(entries[k].0)) == child_text(entries[k]));
    }
}

pub open spec fn children_cat(entries: Seq<(Seq<char>, ValModel)>, k: int) -> Seq<char>
    decreases entries.len() - k,
{
    if k < 0 || k >= entries.len() {
        Seq::empty()
    } else {
        child_text(entries[k]) + children_cat(entries, k + 1)
    }
}

/// Consuming the remaining children and the closing wrapper tag of a flat
/// document produces the re-inferred entries.
#[verifier::rlimit(100)]
#[verifier::spinoff_prover]
proof fn lemma_consume_children(
    s: Seq<char>,
    i: int,
    entries: Seq<(Seq<char>, ValModel)>,
    k: int,
    acc: Seq<(Seq<char>, ValModel)>,
)
    requires
        0 <= i <= s.len(),
        0 <= k <= entries.len(),
        flat_doc_ok(entries),
        crate::value::model_keys_unique(entries),
        forall|j: int|
            0 <= j < entries.len() ==> crate::value::model_wf(#[trigger] entries[j].1),
        acc == reinfer_entries(entries).take(k),
        s.skip(i) == children_cat(entries, k) + (seq!['<', '/'] + wrapper_tag() + seq!['>']),
    ensures
        parse_markup_rec(
            s,
            i,
            seq![Frame { entries: Seq::empty(), name: Seq::empty() }],
            acc,
            wrapper_tag(),
            Seq::empty(),
        ) == Ok::<ValModel, StructuralError>(ValModel::Mapping(reinfer_entries(entries))),
    decreases entries.len() - k,
{
    let st = seq![Frame { entries: Seq::<(Seq<char>, ValModel)>::empty(), name: Seq::<char>::empty() }];
    assert(forall|x: int| 0 <= x < s.len() - i ==> s.skip(i)[x] == s[i + x]);
    if k == entries.len() {
        // Only the closing wrapper tag remains.
        let close = seq!['<', '/'] + wrapper_tag() + seq!['>'];
        assert(children_cat(entries, k) =~= Seq::<char>::empty());
        assert(Seq::<char>::empty() + close =~= close);
        assert(s.skip(i) =~= close);
        assert(s.len() - i == 7);
        assert(close[0] == '<' && close[1] == '/' && close[2] == 'r' && close[3] == 'o'
            && close[4] == 'o' && close[5] == 't' && close[6] == '>') by {
            assert(close =~= seq!['<', '/', 'r', 'o', 'o', 't', '>']);
        }
        assert(s[i] == close[0]);
        assert(s[i + 1] == close[1]);
        assert forall|x: int| i + 2 <= x < i + 6 implies #[trigger] s[x] != '>' by {
            assert(s[x] == close[x - i]);
        }
        assert(s[i + 6] == close[6]);
        lemma_pin_scan_to(s, i + 2, i + 6, '>');
        assert(s.subrange(i + 2, i + 6) =~= wrapper_tag());
        let value = finalize_element(acc, Seq::empty());
        assert(!all_blank(Seq::<char>::empty()) == false);
        assert(acc.len() == entries.len() >= 1);
        assert(value == ValModel::Mapping(acc));
        assert(st.last() == Frame {
            entries: Seq::<(Seq<char>, ValModel)>::empty(),
            name: Seq::<char>::empty(),
        });
        let newcur = crate::value::model_collapse_insert(
            Seq::empty(),
            wrapper_tag(),
            value,
        );
        assert(!crate::value::model_map_has_key(Seq::empty(), wrapper_tag()));
        assert(newcur =~= seq![(wrapper_tag(), value)]);
        assert(st.drop_last() =~= Seq::<Frame>::empty());
        assert(parse_markup_rec(s, i + 7, Seq::empty(), newcur, Seq::empty(), Seq::empty())
            == finalize_document(0, newcur, Seq::empty()));
        assert(newcur[0].0 == wrapper_tag());
        assert(finalize_document(0, newcur, Seq::empty()) == Ok::<ValModel, StructuralError>(
            value,
        ));
        assert(acc =~= reinfer_entries(entries));
    } else {
        let e = entries[k];
        let key = e.0;
        let v = e.1;
        let ct = child_text(e);
        let rest = children_cat(entries, k + 1) + (seq!['<', '/'] + wrapper_tag() + seq!['>']);
        assert(children_cat(entries, k) == ct + children_cat(entries, k + 1));
        assert(s.skip(i) =~= ct + rest);
        assert(s.skip(i).len() == ct.len() + rest.len());
        assert forall|x: int| 0 <= x < ct.len() implies s[i + x] == ct[x] by {
            assert(s.skip(i)[x] == (ct + rest)[x]);
        }
        assert forall|x: int| 0 <= x < rest.len() implies s[i + ct.len() + x] == rest[x] by {
            assert(s.skip(i)[ct.len() + x] == (ct + rest)[ct.len() + x]);
        }
        assert(tag_name_ok(key));
        assert(is_scalar_model(v));
        assert(crate::value::model_wf(v));
        let kl = key.len() as int;
        // The characters of this child's text, position by position.
        assert(ct[0] == '<' && forall|x: int| 0 <= x < kl ==> ct[1 + x] == key[x]) by {
            if v is Null {
                assert(ct == seq!['<'] + key + seq!['/', '>']);
                assert((seq!['<'] + key)[0] == '<');
                assert(forall|x: int|
                    0 <= x < kl ==> (seq!['<'] + key)[1 + x] == #[trigger] key[x]);
                assert(forall|x: int|
                    0 <= x < 1 + kl ==> ct[x] == #[trigger] (seq!['<'] + key)[x]);
            } else {
                let esc0 = markup_escape(scalar_raw_text(v));
                assert(ct == seq!['<'] + key + seq!['>'] + esc0 + seq!['<', '/'] + key + seq![
                    '>',
                ]);
                let head = seq!['<'] + key;
                assert(head[0] == '<');
                assert(forall|x: int| 0 <= x < kl ==> head[1 + x] == #[trigger] key[x]);
                assert(forall|x: int| 0 <= x < 1 + kl ==> ct[x] == #[trigger] head[x]);
            }
        }
        // The opening tag.
        assert(s[i] == ct[0]);
        assert(rest.len() >= 7);
        assert(i + 1 < s.len());
        assert(s[i + 1] == key[0]);
        assert(is_tag_char(key[0]));
        assert(s[i + 1] != '<' && s[i + 1] != '/' && s[i + 1] != '!' && s[i + 1] != '?');
        let ne = i + 1 + key.len();
        assert forall|x: int| i + 1 <= x < ne implies !is_name_end(#[trigger] s[x]) by {
            assert(s[x] == ct[x - i]);
            assert(ct[x - i] == key[x - i - 1]);
            assert(is_tag_char(key[x - i - 1]));
        }
        if v is Null {
            assert(ct == seq!['<'] + key + seq!['/', '>']);
            assert(ct[1 + kl] == '/' && ct[2 + kl] == '>') by {
                let head = seq!['<'] + key;
                assert(ct == head + seq!['/', '>']);
                assert(ct[head.len() as int] == '/');
                assert(ct[head.len() + 1 as int] == '>');
            }
            assert(s[ne] == ct[1 + kl]);
            assert(s[ne + 1] == ct[2 + kl]);
            lemma_pin_scan_name(s, i + 1, ne);
            assert(s.subrange(i + 1, ne) =~= key);
            assert(parse_attrs(s, ne, Seq::empty()) == Ok::<
                (Seq<(Seq<char>, ValModel)>, int, bool),
                int,
            >((Seq::empty(), ne + 2, true)));
            let value = finalize_element(Seq::empty(), Seq::empty());
            assert(value == spec_infer(Seq::empty()));
            assert(scalar_raw_text(v) =~= Seq::<char>::empty());
            assert(value == spec_infer(scalar_raw_text(v)));
            lemma_flat_collapse(entries, k, acc, value);
            assert(ne + 2 == i + ct.len());
            assert(s.skip(ne + 2) =~= rest);
            lemma_consume_children(s, ne + 2, entries, k + 1, acc.push((key, value)));
        } else {
            let raw = scalar_raw_text(v);
            let esc = markup_escape(raw);
            let el = esc.len() as int;
            assert(ct == seq!['<'] + key + seq!['>'] + esc + seq!['<', '/'] + key + seq!['>']);
            assert(ct[1 + kl] == '>' && (forall|x: int| 0 <= x < el ==> ct[2 + kl + x] == esc[x])
                && ct[2 + kl + el] == '<' && ct[3 + kl + el] == '/' && (forall|x: int|
                0 <= x < kl ==> ct[4 + kl + el + x] == key[x]) && ct[4 + 2 * kl + el] == '>') by {
                let p1 = seq!['<'] + key;
                let p2 = p1 + seq!['>'];
                let p3 = p2 + esc;
                let p4 = p3 + seq!['<', '/'];
                let p5 = p4 + key;
                assert(ct == p5 + seq!['>']);
                assert(p2[1 + kl] == '>');
                assert(forall|x: int| 0 <= x < el ==> p3[2 + kl + x] == #[trigger] esc[x]);
                assert(p4[2 + kl + el] == '<');
                assert(p4[3 + kl + el] == '/');
                assert(forall|x: int| 0 <= x < kl ==> p5[4 + kl + el + x] == #[trigger] key[x]);
                assert(ct[4 + 2 * kl + el] == '>');
                assert(forall|x: int| 0 <= x < p2.len() ==> ct[x] == #[trigger] p2[x]);
                assert(forall|x: int| 0 <= x < p3.len() ==> ct[x] == #[trigger] p3[x]);
                assert(forall|x: int| 0 <= x < p4.len() ==> ct[x] == #[trigger] p4[x]);
                assert(forall|x: int| 0 <= x < p5.len() ==> ct[x] == #[trigger] p5[x]);
            }
            assert(s[ne] == ct[1 + kl]);
            lemma_pin_scan_name(s, i + 1, ne);
            assert(s.subrange(i + 1, ne) =~= key);
            assert(parse_attrs(s, ne, Seq::empty()) == Ok::<
                (Seq<(Seq<char>, ValModel)>, int, bool),
                int,
            >((Seq::empty(), ne + 1, false)));
            // The text run, if any.
            let tstart = ne + 1;
            let tend = tstart + esc.len();
            lemma_markup_escape_no_lt(raw);
            assert forall|x: int| tstart <= x < tend implies #[trigger] s[x] != '<' by {
                assert(s[x] == ct[x - i]);
                assert(ct[x - i] == esc[x - i - 2 - kl]);
            }
            assert(s[tend] == ct[2 + kl + el]);
            let pushed = st.push(Frame { entries: acc, name: wrapper_tag() });
            lemma_markup_unescape_escape(raw);
            if esc.len() > 0 {
                assert(s[tstart] != '<');
                lemma_pin_scan_to(s, tstart, tend, '<');
                assert(s.subrange(tstart, tend) =~= esc);
                assert(parse_markup_rec(s, tstart, pushed, Seq::empty(), key, Seq::empty())
                    == parse_markup_rec(s, tend, pushed, Seq::empty(), key, raw));
            } else {
                assert(raw =~= Seq::<char>::empty());
                assert(tstart == tend);
            }
            // The closing tag.
            assert(s[tend + 1] == ct[3 + kl + el]);
            let cend = tend + 2 + key.len();
            assert forall|x: int| tend + 2 <= x < cend implies #[trigger] s[x] != '>' by {
                assert(s[x] == ct[x - i]);
                assert(ct[x - i] == key[x - (tend + 2)]);
                assert(is_tag_char(key[x - (tend + 2)]));
            }
            assert(s[cend] == ct[4 + 2 * kl + el]);
            lemma_pin_scan_to(s, tend + 2, cend, '>');
            assert(s.subrange(tend + 2, cend) =~= key);
            let value = finalize_element(Seq::empty(), raw);
            assert(value == spec_infer(raw));
            assert(pushed.last() == Frame { entries: acc, name: wrapper_tag() });
            assert(pushed.drop_last() =~= st);
            lemma_flat_collapse(entries, k, acc, value);
            assert(cend + 1 == i + ct.len());
            assert(s.skip(cend + 1) =~= rest);
            lemma_consume_children(s, cend + 1, entries, k + 1, acc.push((key, value)));
        }
    }
}

/// Inserting the next child of a flat document appends: its key is absent
/// from the accumulated entries.
proof fn lemma_flat_collapse(
    entries: Seq<(Seq<char>, ValModel)>,
    k: int,
    acc: Seq<(Seq<char>, ValModel)>,
    value: ValModel,
)
    requires
        0 <= k < entries.len(),
        crate::value::model_keys_unique(entries),
        acc == reinfer_entries(entries).take(k),
    ensures
        crate::value::model_collapse_insert(acc, entries[k].0, value) == acc.push(
            (entries[k].0, value),
        ),
        value == spec_infer(scalar_raw_text(entries[k].1)) ==> acc.push((entries[k].0, value))
            == reinfer_entries(entries).take(k + 1),
{
    assert(!crate::value::model_map_has_key(acc, entries[k].0)) by {
        if crate::value::model_map_has_key(acc, entries[k].0) {
            let j = choose|j: int| 0 <= j < acc.len() && acc[j].0 == entries[k].0;
            assert(acc[j].0 == entries[j].0);
        }
    }
    if value == spec_infer(scalar_raw_text(entries[k].1)) {
        assert(acc.push((entries[k].0, value)) =~= reinfer_entries(entries).take(k + 1));
    }
}

/// The markup round trip for a flat document, modulo re-inference: the
/// serialized form of a map of scalars under usable tag names parses back
/// to the same map with every scalar re-inferred from its natural text.
pub proof fn lemma_markup_flat_round_trip(m: ValModel)
    requires
        m is Mapping,
        crate::value::model_wf(m),
        flat_doc_ok(m->Mapping_0),
    ensures
        parse_markup_model(markup_text(m)) == Ok::<ValModel, StructuralError>(
            ValModel::Mapping(reinfer_entries(m->Mapping_0)),
        ),
{
    let entries = m->Mapping_0;
    let s = markup_text(m);
    assert(s == element_text(entries, wrapper_tag()));
    // No attribute entries, no inline text, at least one child.
    assert(forall|j: int| 0 <= j < entries.len() ==> !is_attr_entry(#[trigger] entries[j])) by {
        assert forall|j: int| 0 <= j < entries.len() implies !is_attr_entry(
            #[trigger] entries[j],
        ) by {
            assert(tag_name_ok(entries[j].0));
        }
    }
    lemma_attrs_text_empty(entries, 0);
    assert(inline_text(entries) is None) by {
        crate::value::lemma_map_index_of(entries, text_key());
        assert(!crate::value::model_map_has_key(entries, text_key())) by {
            if crate::value::model_map_has_key(entries, text_key()) {
                let j = choose|j: int|
                    0 <= j < entries.len() && #[trigger] entries[j].0 == text_key();
                assert(tag_name_ok(entries[j].0));
            }
        }
    }
    assert(has_child_entry(entries)) by {
        assert(tag_name_ok(entries[0].0));
        assert(is_child_entry(entries[0])) by {
            assert(is_tag_char(entries[0].0[0]));
        }
    }
    lemma_children_text_flat(entries, 0);
    let open_part = seq!['<'] + wrapper_tag() + Seq::<char>::empty() + seq!['>'];
    let close_part = seq!['<', '/'] + wrapper_tag() + seq!['>'];
    assert(s =~= open_part + (children_cat(entries, 0) + close_part));
    // Consume the opening wrapper tag.
    assert(s[0] == '<');
    assert(s[1] == 'r');
    assert forall|x: int| 1 <= x < 5 implies !is_name_end(#[trigger] s[x]) by {
        assert(s[x] == wrapper_tag()[x - 1]);
    }
    assert(s[5] == '>');
    lemma_pin_scan_name(s, 1, 5);
    assert(s.subrange(1, 5) =~= wrapper_tag());
    assert(parse_attrs(s, 5, Seq::empty()) == Ok::<(Seq<(Seq<char>, ValModel)>, int, bool), int>(
        (Seq::empty(), 6, false),
    ));
    assert(crate::value::model_keys_unique(entries));
    assert(forall|j: int| 0 <= j < entries.len() ==> crate::value::model_wf(#[trigger] entries[j].1));
    assert(reinfer_entries(entries).take(0) =~= Seq::<(Seq<char>, ValModel)>::empty());
    assert(s.skip(6) =~= children_cat(entries, 0) + close_part);
    lemma_consume_children(s, 6, entries, 0, Seq::empty());
    assert(Seq::<Frame>::empty().push(
        Frame { entries: Seq::empty(), name: Seq::empty() },
    ) =~= seq![Frame { entries: Seq::<(Seq<char>, ValModel)>::empty(), name: Seq::<char>::empty() }]);
}

/// The escaped form of a text never holds a raw quote.
proof fn lemma_markup_escape_no_quote(s: Seq<char>)
    ensures
        forall|x: int|
            0 <= x < markup_escape(s).len() ==> #[trigger] markup_escape(s)[x] != '"',
    decreases s.len(),
{
    if s.len() > 0 {
        lemma_markup_escape_no_quote(s.drop_first());
        let e = markup_escape(s);
        let h = markup_escape_char(s[0]);
        assert(e == h + markup_escape(s.drop_first()));
        assert forall|x: int| 0 <= x < e.len() implies #[trigger] e[x] != '"' by {
            if x < h.len() {
                assert(e[x] == h[x]);
            } else {
                assert(e[x] == markup_escape(s.drop_first())[x - h.len()]);
            }
        }
    }
}

/// A key usable as an attribute: the marker, then one or more characters
/// the attribute scanner passes over.
pub open spec fn attr_name_ok(k: Seq<char>) -> bool {
    &&& k.len() >= 2
    &&& k[0] == '@'
    &&& forall|x: int| 1 <= x < k.len() ==> !is_attr_name_end(#[trigger] k[x]) && k[x] != '<'
}

/// An attribute list every entry of which the serializer renders: distinct
/// marker names with well-formed scalar values.
pub open spec fn attr_doc_ok(attrs: Seq<(Seq<char>, ValModel)>) -> bool {
    &&& attrs.len() >= 1
    &&& crate::value::model_keys_unique(attrs)
    &&& (forall|j: int|
        0 <= j < attrs.len() ==> attr_name_ok(#[trigger] attrs[j].0) && is_scalar_model(
            attrs[j].1,
        ) && crate::value::model_wf(attrs[j].1))
}

/// Reading back the remaining serialized attributes of a self-closing tag
/// accumulates their re-inferred values.
#[verifier::rlimit(100)]
proof fn lemma_consume_attrs(
    s: Seq<char>,
    i: int,
    attrs: Seq<(Seq<char>, ValModel)>,
    k: int,
    acc: Seq<(Seq<char>, ValModel)>,
)
    requires
        0 <= i,
        0 <= k <= attrs.len(),
        attr_doc_ok(attrs),
        acc == reinfer_entries(attrs).take(k),
        i + attrs_text(attrs, k).len() + 2 <= s.len(),
        s.subrange(i, i + attrs_text(attrs, k).len() + 2) == attrs_text(attrs, k) + seq![
            '/',
            '>',
        ],
    ensures
        parse_attrs(s, i, acc) == Ok::<(Seq<(Seq<char>, ValModel)>, int, bool), int>(
            (reinfer_entries(attrs), i + attrs_text(attrs, k).len() + 2, true),
        ),
    decreases attrs.len() - k,
{
    let at = attrs_text(attrs, k);
    let seg = at + seq!['/', '>'];
    assert forall|x: int| 0 <= x < seg.len() implies s[i + x] == #[trigger] seg[x] by {
        assert(s.subrange(i, i + seg.len() as int)[x] == s[i + x]);
    }
    if k == attrs.len() {
        assert(at =~= Seq::<char>::empty());
        assert(seg[0] == '/' && seg[1] == '>') by {
            assert(seg =~= seq!['/', '>']);
        }
        assert(s[i] == '/');
        assert(s[i + 1] == '>');
        assert(acc =~= reinfer_entries(attrs));
    } else {
        let e = attrs[k];
        let key = e.0;
        let name = key.skip(1);
        let nl = name.len() as int;
        let raw = scalar_raw_text(e.1);
        let esc = markup_escape(raw);
        let el = esc.len() as int;
        let this = attr_text(e);
        assert(attr_name_ok(key));
        assert(is_attr_entry(e)) by {
            assert(key[0] == '@');
        }
        assert(at == this + attrs_text(attrs, k + 1));
        assert(this == seq![' '] + name + seq!['=', '"'] + esc + seq!['"']);
        assert(this.len() == nl + el + 4);
        // The characters of this attribute, position by position.
        assert(this[0] == ' ' && (forall|x: int| 0 <= x < nl ==> this[1 + x] == name[x]) && this[1
            + nl] == '=' && this[2 + nl] == '"' && (forall|x: int|
            0 <= x < el ==> this[3 + nl + x] == esc[x]) && this[3 + nl + el] == '"') by {
            let p1 = seq![' '] + name;
            let p2 = p1 + seq!['=', '"'];
            let p3 = p2 + esc;
            assert(this == p3 + seq!['"']);
            assert(p1[0] == ' ');
            assert(forall|x: int| 0 <= x < nl ==> p1[1 + x] == #[trigger] name[x]);
            assert(p2[1 + nl] == '=');
            assert(p2[2 + nl] == '"');
            assert(forall|x: int| 0 <= x < el ==> p3[3 + nl + x] == #[trigger] esc[x]);
            assert(this[3 + nl + el] == '"');
            assert(forall|x: int| 0 <= x < p1.len() ==> this[x] == #[trigger] p1[x]);
            assert(forall|x: int| 0 <= x < p2.len() ==> this[x] == #[trigger] p2[x]);
            assert(forall|x: int| 0 <= x < p3.len() ==> this[x] == #[trigger] p3[x]);
        }
        assert(forall|x: int| 0 <= x < this.len() ==> s[i + x] == #[trigger] this[x]) by {
            assert(forall|x: int| 0 <= x < this.len() ==> seg[x] == #[trigger] this[x]);
        }
        // Skip the space, then the name runs to `=`.
        assert(s[i] == ' ');
        assert(is_blank_char(s[i]));
        let ns = i + 1;
        let ne = ns + nl;
        assert forall|x: int| ns <= x < ne implies !is_attr_name_end(#[trigger] s[x]) && s[x]
            != '<' by {
            assert(s[x] == this[x - i]);
            assert(this[x - i] == name[x - ns]);
            assert(name[x - ns] == key[x - ns + 1]);
        }
        assert(s[ne] == '=');
        assert(is_attr_name_end('='));
        lemma_pin_scan_attr_name(s, ns, ne);
        assert(s[ns] != '>' && s[ns] != '/' && !is_blank_char(s[ns])) by {
            assert(s[ns] == name[0]);
            assert(name[0] == key[1]);
        }
        assert(ne != ns);
        assert(s[ne + 1] == '"');
        // The value runs to the closing quote.
        let vs = ne + 2;
        let ve = vs + el;
        lemma_markup_escape_no_quote(raw);
        assert forall|x: int| vs <= x < ve implies #[trigger] s[x] != '"' by {
            assert(s[x] == this[x - i]);
            assert(this[x - i] == esc[x - vs]);
        }
        assert(s[ve] == '"');
        lemma_pin_scan_to(s, vs, ve, '"');
        assert(s.subrange(vs, ve) =~= esc);
        lemma_markup_unescape_escape(raw);
        // The inserted entry.
        assert(s.subrange(ns, ne) =~= name);
        assert(seq!['@'] + name =~= key);
        let value = spec_infer(raw);
        assert(!crate::value::model_map_has_key(acc, key)) by {
            if crate::value::model_map_has_key(acc, key) {
                let j = choose|j: int| 0 <= j < acc.len() && acc[j].0 == key;
                assert(acc[j].0 == attrs[j].0);
            }
        }
        assert(crate::value::model_map_insert(acc, key, value) =~= acc.push((key, value)));
        assert(acc.push((key, value)) =~= reinfer_entries(attrs).take(k + 1));
        assert(s.subrange(ve + 1, ve + 1 + attrs_text(attrs, k + 1).len() + 2) =~= attrs_text(
            attrs,
            k + 1,
        ) + seq!['/', '>']) by {
            let restseg = attrs_text(attrs, k + 1) + seq!['/', '>'];
            assert forall|x: int| 0 <= x < restseg.len() implies seg[this.len() + x] == #[trigger]
            restseg[x] by {
                assert(seg[this.len() + x] == at[this.len() + x] || true);
            }
        }
        lemma_consume_attrs(s, ve + 1, attrs, k + 1, acc.push((key, value)));
        assert(parse_attrs(s, i, acc) == parse_attrs(s, i + 1, acc));
    }
}

/// Pins the attribute-name scan.
proof fn lemma_pin_scan_attr_name(s: Seq<char>, i: int, j: int)
    requires
        0 <= i <= j < s.len(),
        forall|k: int| i <= k < j ==> !is_attr_name_end(#[trigger] s[k]),
        is_attr_name_end(s[j]),
    ensures
        scan_attr_name_end(s, i) == j,
{
    lemma_scan_attr_name_end(s, i);
    let r = scan_attr_name_end(s, i);
    if r < j {
        assert(is_attr_name_end(s[r]));
    }
    if r > j {
        assert(!is_attr_name_end(s[j]));
    }
}

/// The markup round trip for a one-element document holding only
/// attributes, modulo re-inference: the attribute-marked entries come back
/// under the same names with their values re-inferred, never merged into or
/// overwritten by anything else.
/// The per-item element texts of a sequence-valued child, concatenated
/// from item `j` on.
pub open spec fn siblings_cat(items: Seq<ValModel>, j: int, name: Seq<char>) -> Seq<char>
    decreases items.len() - j,
{
    if j < 0 || j >= items.len() {
        Seq::empty()
    } else {
        child_text((name, items[j])) + siblings_cat(items, j + 1, name)
    }
}

/// The entry list after the first `j` same-named siblings have been merged:
/// nothing, then the bare value, then the collapsed sequence.
pub open spec fn sibling_state(name: Seq<char>, rs: Seq<ValModel>, j: int) -> Seq<
    (Seq<char>, ValModel),
> {
    if j <= 0 {
        Seq::empty()
    } else if j == 1 {
        seq![(name, rs[0])]
    } else {
        seq![(name, ValModel::Sequence(rs.take(j)))]
    }
}

/// Inference never yields a sequence or a map.
proof fn lemma_infer_is_scalar(s: Seq<char>)
    ensures
        !(spec_infer(s) is Sequence),
        !(spec_infer(s) is Mapping),
{
}

/// Merging the next same-named sibling steps the collapse state.
proof fn lemma_sibling_collapse(name: Seq<char>, rs: Seq<ValModel>, j: int)
    requires
        0 <= j < rs.len(),
        forall|x: int| 0 <= x < rs.len() ==> !((#[trigger] rs[x]) is Sequence),
    ensures
        crate::value::model_collapse_insert(sibling_state(name, rs, j), name, rs[j])
            == sibling_state(name, rs, j + 1),
{
    let st = sibling_state(name, rs, j);
    if j == 0 {
        assert(!crate::value::model_map_has_key(st, name));
        assert(crate::value::model_collapse_insert(st, name, rs[0]) =~= seq![(name, rs[0])]);
    } else {
        assert(st[0].0 == name);
        assert(crate::value::model_map_has_key(st, name));
        crate::value::lemma_map_index_of(st, name);
        assert(crate::value::model_map_index_of(st, name) == 0);
        if j == 1 {
            assert(!(st[0].1 is Sequence));
            assert(crate::value::model_collapse_insert(st, name, rs[1]) =~= seq![
                (name, ValModel::Sequence(seq![rs[0], rs[1]])),
            ]);
            assert(seq![rs[0], rs[1]] =~= rs.take(2));
        } else {
            assert(st[0].1 == ValModel::Sequence(rs.take(j)));
            assert(crate::value::model_collapse_insert(st, name, rs[j]) =~= seq![
                (name, ValModel::Sequence(rs.take(j).push(rs[j]))),
            ]);
            assert(rs.take(j).push(rs[j]) =~= rs.take(j + 1));
        }
    }
}

/// The re-inferred models of a sequence of scalars.
pub open spec fn reinfer_items(items: Seq<ValModel>) -> Seq<ValModel> {
    Seq::new(items.len(), |j: int| spec_infer(scalar_raw_text(items[j])))
}

/// Consuming the remaining same-named sibling elements and the closing
/// wrapper tag collapses them into one entry.
#[verifier::rlimit(100)]
#[verifier::spinoff_prover]
proof fn lemma_consume_siblings(
    s: Seq<char>,
    i: int,
    name: Seq<char>,
    items: Seq<ValModel>,
    j: int,
)
    requires
        0 <= i <= s.len(),
        0 <= j <= items.len(),
        items.len() >= 1,
        tag_name_ok(name),
        name != wrapper_tag(),
        forall|x: int|
            0 <= x < items.len() ==> is_scalar_model(#[trigger] items[x])
                && crate::value::model_wf(items[x]),
        s.skip(i) == siblings_cat(items, j, name) + (seq!['<', '/'] + wrapper_tag() + seq!['>']),
    ensures
        parse_markup_rec(
            s,
            i,
            seq![Frame { entries: Seq::empty(), name: Seq::empty() }],
            sibling_state(name, reinfer_items(items), j),
            wrapper_tag(),
            Seq::empty(),
        ) == finalize_document(0, sibling_state(name, reinfer_items(items), items.len() as int), Seq::empty()),
    decreases items.len() - j,
{
    let st = seq![Frame { entries: Seq::<(Seq<char>, ValModel)>::empty(), name: Seq::<char>::empty() }];
    let rs = reinfer_items(items);
    assert(forall|x: int| 0 <= x < s.len() - i ==> s.skip(i)[x] == s[i + x]);
    assert forall|x: int| 0 <= x < rs.len() implies !((#[trigger] rs[x]) is Sequence) by {
        lemma_infer_is_scalar(scalar_raw_text(items[x]));
    }
    if j == items.len() {
        // Only the closing wrapper tag remains.
        let close = seq!['<', '/'] + wrapper_tag() + seq!['>'];
        assert(siblings_cat(items, j, name) =~= Seq::<char>::empty());
        assert(Seq::<char>::empty() + close =~= close);
        assert(s.skip(i) =~= close);
        assert(s.len() - i == 7);
        assert(close[0] == '<' && close[1] == '/' && close[2] == 'r' && close[3] == 'o'
            && close[4] == 'o' && close[5] == 't' && close[6] == '>') by {
            assert(close =~= seq!['<', '/', 'r', 'o', 'o', 't', '>']);
        }
        assert(s[i] == close[0]);
        assert(s[i + 1] == close[1]);
        assert forall|x: int| i + 2 <= x < i + 6 implies #[trigger] s[x] != '>' by {
            assert(s[x] == close[x - i]);
        }
        assert(s[i + 6] == close[6]);
        lemma_pin_scan_to(s, i + 2, i + 6, '>');
        assert(s.subrange(i + 2, i + 6) =~= wrapper_tag());
        let cur = sibling_state(name, rs, j);
        assert(cur.len() >= 1);
        let value = finalize_element(cur, Seq::empty());
        assert(value == ValModel::Mapping(cur));
        assert(st.last() == Frame {
            entries: Seq::<(Seq<char>, ValModel)>::empty(),
            name: Seq::<char>::empty(),
        });
        let newcur = crate::value::model_collapse_insert(Seq::empty(), wrapper_tag(), value);
        assert(!crate::value::model_map_has_key(Seq::empty(), wrapper_tag()));
        assert(newcur =~= seq![(wrapper_tag(), value)]);
        assert(st.drop_last() =~= Seq::<Frame>::empty());
        assert(parse_markup_rec(s, i + 7, Seq::empty(), newcur, Seq::empty(), Seq::empty())
            == finalize_document(0, newcur, Seq::empty()));
        assert(newcur[0].0 == wrapper_tag());
        assert(finalize_document(0, newcur, Seq::empty()) == Ok::<ValModel, StructuralError>(
            value,
        ));
        assert(finalize_document(0, cur, Seq::empty()) == Ok::<ValModel, StructuralError>(
            ValModel::Mapping(cur),
        )) by {
            assert(cur[0].0 == name);
        }
    } else {
        let v = items[j];
        let ct = child_text((name, v));
        let rest = siblings_cat(items, j + 1, name) + (seq!['<', '/'] + wrapper_tag() + seq![
            '>',
        ]);
        assert(siblings_cat(items, j, name) == ct + siblings_cat(items, j + 1, name));
        assert(s.skip(i) =~= ct + rest);
        assert(s.skip(i).len() == ct.len() + rest.len());
        assert forall|x: int| 0 <= x < ct.len() implies s[i + x] == ct[x] by {
            assert(s.skip(i)[x] == (ct + rest)[x]);
        }
        assert forall|x: int| 0 <= x < rest.len() implies s[i + ct.len() + x] == rest[x] by {
            assert(s.skip(i)[ct.len() + x] == (ct + rest)[ct.len() + x]);
        }
        assert(is_scalar_model(v));
        assert(crate::value::model_wf(v));
        let kl = name.len() as int;
        // The characters of this sibling's text, position by position.
        assert(ct[0] == '<' && forall|x: int| 0 <= x < kl ==> ct[1 + x] == name[x]) by {
            if v is Null {
                assert(ct == seq!['<'] + name + seq!['/', '>']);
                assert((seq!['<'] + name)[0] == '<');
                assert(forall|x: int|
                    0 <= x < kl ==> (seq!['<'] + name)[1 + x] == #[trigger] name[x]);
                assert(forall|x: int|
                    0 <= x < 1 + kl ==> ct[x] == #[trigger] (seq!['<'] + name)[x]);
            } else {
                let esc0 = markup_escape(scalar_raw_text(v));
                assert(ct == seq!['<'] + name + seq!['>'] + esc0 + seq!['<', '/'] + name + seq![
                    '>',
                ]);
                let head = seq!['<'] + name;
                assert(head[0] == '<');
                assert(forall|x: int| 0 <= x < kl ==> head[1 + x] == #[trigger] name[x]);
                assert(forall|x: int| 0 <= x < 1 + kl ==> ct[x] == #[trigger] head[x]);
            }
        }
        // The opening tag.
        assert(s[i] == ct[0]);
        assert(rest.len() >= 7);
        assert(i + 1 < s.len());
        assert(s[i + 1] == name[0]);
        assert(is_tag_char(name[0]));
        assert(s[i + 1] != '<' && s[i + 1] != '/' && s[i + 1] != '!' && s[i + 1] != '?');
        let ne = i + 1 + name.len();
        assert forall|x: int| i + 1 <= x < ne implies !is_name_end(#[trigger] s[x]) by {
            assert(s[x] == ct[x - i]);
            assert(ct[x - i] == name[x - i - 1]);
            assert(is_tag_char(name[x - i - 1]));
        }
        lemma_sibling_collapse(name, rs, j);
        assert(rs[j] == spec_infer(scalar_raw_text(v)));
        if v is Null {
            assert(ct == seq!['<'] + name + seq!['/', '>']);
            assert(ct[1 + kl] == '/' && ct[2 + kl] == '>') by {
                let head = seq!['<'] + name;
                assert(ct == head + seq!['/', '>']);
                assert(ct[head.len() as int] == '/');
                assert(ct[head.len() + 1 as int] == '>');
            }
            assert(s[ne] == ct[1 + kl]);
            assert(s[ne + 1] == ct[2 + kl]);
            lemma_pin_scan_name(s, i + 1, ne);
            assert(s.subrange(i + 1, ne) =~= name);
            assert(parse_attrs(s, ne, Seq::empty()) == Ok::<
                (Seq<(Seq<char>, ValModel)>, int, bool),
                int,
            >((Seq::empty(), ne + 2, true)));
            let value = finalize_element(Seq::empty(), Seq::empty());
            assert(value == spec_infer(Seq::empty()));
            assert(scalar_raw_text(v) =~= Seq::<char>::empty());
            assert(value == rs[j]);
            assert(ne + 2 == i + ct.len());
            assert(s.skip(ne + 2) =~= rest);
            lemma_consume_siblings(s, ne + 2, name, items, j + 1);
        } else {
            let raw = scalar_raw_text(v);
            let esc = markup_escape(raw);
            let el = esc.len() as int;
            assert(ct == seq!['<'] + name + seq!['>'] + esc + seq!['<', '/'] + name + seq!['>']);
            assert(ct[1 + kl] == '>' && (forall|x: int| 0 <= x < el ==> ct[2 + kl + x] == esc[x])
                && ct[2 + kl + el] == '<' && ct[3 + kl + el] == '/' && (forall|x: int|
                0 <= x < kl ==> ct[4 + kl + el + x] == name[x]) && ct[4 + 2 * kl + el] == '>')
                by {
                let p1 = seq!['<'] + name;
                let p2 = p1 + seq!['>'];
                let p3 = p2 + esc;
                let p4 = p3 + seq!['<', '/'];
                let p5 = p4 + name;
                assert(ct == p5 + seq!['>']);
                assert(p2[1 + kl] == '>');
                assert(forall|x: int| 0 <= x < el ==> p3[2 + kl + x] == #[trigger] esc[x]);
                assert(p4[2 + kl + el] == '<');
                assert(p4[3 + kl + el] == '/');
                assert(forall|x: int| 0 <= x < kl ==> p5[4 + kl + el + x] == #[trigger] name[x]);
                assert(ct[4 + 2 * kl + el] == '>');
                assert(forall|x: int| 0 <= x < p2.len() ==> ct[x] == #[trigger] p2[x]);
                assert(forall|x: int| 0 <= x < p3.len() ==> ct[x] == #[trigger] p3[x]);
                assert(forall|x: int| 0 <= x < p4.len() ==> ct[x] == #[trigger] p4[x]);
                assert(forall|x: int| 0 <= x < p5.len() ==> ct[x] == #[trigger] p5[x]);
            }
            assert(s[ne] == ct[1 + kl]);
            lemma_pin_scan_name(s, i + 1, ne);
            assert(s.subrange(i + 1, ne) =~= name);
            assert(parse_attrs(s, ne, Seq::empty()) == Ok::<
                (Seq<(Seq<char>, ValModel)>, int, bool),
                int,
            >((Seq::empty(), ne + 1, false)));
            let tstart = ne + 1;
            let tend = tstart + esc.len();
            lemma_markup_escape_no_lt(raw);
            assert forall|x: int| tstart <= x < tend implies #[trigger] s[x] != '<' by {
                assert(s[x] == ct[x - i]);
                assert(ct[x - i] == esc[x - i - 2 - kl]);
            }
            assert(s[tend] == ct[2 + kl + el]);
            let cur = sibling_state(name, rs, j);
            let pushed = st.push(Frame { entries: cur, name: wrapper_tag() });
            lemma_markup_unescape_escape(raw);
            if esc.len() > 0 {
                assert(s[tstart] != '<');
                lemma_pin_scan_to(s, tstart, tend, '<');
                assert(s.subrange(tstart, tend) =~= esc);
                assert(parse_markup_rec(s, tstart, pushed, Seq::empty(), name, Seq::empty())
                    == parse_markup_rec(s, tend, pushed, Seq::empty(), name, raw));
            } else {
                assert(raw =~= Seq::<char>::empty());
                assert(tstart == tend);
            }
            assert(s[tend + 1] == ct[3 + kl + el]);
            let cend = tend + 2 + name.len();
            assert forall|x: int| tend + 2 <= x < cend implies #[trigger] s[x] != '>' by {
                assert(s[x] == ct[x - i]);
                assert(ct[x - i] == name[x - (tend + 2)]);
                assert(is_tag_char(name[x - (tend + 2)]));
            }
            assert(s[cend] == ct[4 + 2 * kl + el]);
            lemma_pin_scan_to(s, tend + 2, cend, '>');
            assert(s.subrange(tend + 2, cend) =~= name);
            let value = finalize_element(Seq::empty(), raw);
            assert(value == spec_infer(raw));
            assert(value == rs[j]);
            assert(pushed.last() == Frame { entries: cur, name: wrapper_tag() });
            assert(pushed.drop_last() =~= st);
            assert(cend + 1 == i + ct.len());
            assert(s.skip(cend + 1) =~= rest);
            lemma_consume_siblings(s, cend + 1, name, items, j + 1);
        }
    }
}

/// The markup round trip for a sequence-valued entry, modulo re-inference:
/// serializing `{name: [v1, v2, ...]}` writes one sibling element per item,
/// and parsing collapses them back into the same sequence of re-inferred
/// scalars; a one-item sequence comes back as the bare item, not wrapped.
#[verifier::rlimit(100)]
#[verifier::spinoff_prover]
pub proof fn lemma_markup_collapse_round_trip(name: Seq<char>, items: Seq<ValModel>)
    requires
        tag_name_ok(name),
        name != wrapper_tag(),
        items.len() >= 1,
        forall|x: int|
            0 <= x < items.len() ==> is_scalar_model(#[trigger] items[x])
                && crate::value::model_wf(items[x]),
    ensures
        ({
            let m = ValModel::Mapping(seq![(name, ValModel::Sequence(items))]);
            let back = if items.len() == 1 {
                ValModel::Mapping(seq![(name, reinfer_items(items)[0])])
            } else {
                ValModel::Mapping(seq![(name, ValModel::Sequence(reinfer_items(items)))])
            };
            parse_markup_model(markup_text(m)) == Ok::<ValModel, StructuralError>(back)
        }),
{
    let inner = ValModel::Sequence(items);
    let top = seq![(name, inner)];
    let m = ValModel::Mapping(top);
    let s = markup_text(m);
    let rs = reinfer_items(items);
    // The top element has one child and nothing else.
    assert(forall|j: int| 0 <= j < top.len() ==> !is_attr_entry(#[trigger] top[j])) by {
        assert(is_tag_char(name[0]));
    }
    lemma_attrs_text_empty(top, 0);
    assert(inline_text(top) is None) by {
        crate::value::lemma_map_index_of(top, text_key());
        if crate::value::model_map_has_key(top, text_key()) {
            let j = choose|j: int| 0 <= j < top.len() && #[trigger] top[j].0 == text_key();
            assert(top[j].0 == name);
            assert(name != text_key());
        }
    }
    assert(has_child_entry(top)) by {
        assert(is_child_entry(top[0])) by {
            assert(is_tag_char(name[0]));
        }
    }
    // The child renders as the sibling run.
    assert(children_text(top, 0) =~= seq_items_text(items, 0, Some(name))) by {
        assert(children_text(top, 1) =~= Seq::<char>::empty());
        assert(seq_items_text(items, 0, Some(name)) + Seq::<char>::empty() =~= seq_items_text(
            items,
            0,
            Some(name),
        ));
    }
    assert(seq_items_text(items, 0, Some(name)) == siblings_cat(items, 0, name)) by {
        lemma_siblings_cat_eq(items, 0, name);
    }
    let body = siblings_cat(items, 0, name);
    let open_root = seq!['<'] + wrapper_tag() + Seq::<char>::empty() + seq!['>'];
    let close_root = seq!['<', '/'] + wrapper_tag() + seq!['>'];
    assert(s == open_root + body + Seq::<char>::empty() + close_root);
    assert(s =~= open_root + (body + close_root));
    assert(open_root =~= seq!['<', 'r', 'o', 'o', 't', '>']);
    assert(s.len() == 6 + body.len() + 7);
    assert forall|x: int| 0 <= x < 6 implies s[x] == #[trigger] open_root[x] by {
        assert(s[x] == (open_root + (body + close_root))[x]);
    }
    // Consume the opening wrapper tag.
    assert(s[0] == '<' && s[1] == 'r' && s[5] == '>');
    assert forall|x: int| 1 <= x < 5 implies !is_name_end(#[trigger] s[x]) by {
        assert(s[x] == open_root[x]);
    }
    lemma_pin_scan_name(s, 1, 5);
    assert(s.subrange(1, 5) =~= wrapper_tag());
    assert(parse_attrs(s, 5, Seq::empty()) == Ok::<(Seq<(Seq<char>, ValModel)>, int, bool), int>(
        (Seq::empty(), 6, false),
    ));
    assert(s.skip(6) =~= body + close_root);
    assert(sibling_state(name, rs, 0) =~= Seq::<(Seq<char>, ValModel)>::empty());
    lemma_consume_siblings(s, 6, name, items, 0);
    let final_cur = sibling_state(name, rs, items.len() as int);
    assert(final_cur.len() == 1);
    assert(final_cur[0].0 == name);
    assert(name != wrapper_tag() ==> finalize_document(0, final_cur, Seq::empty()) == Ok::<
        ValModel,
        StructuralError,
    >(ValModel::Mapping(final_cur)));
    assert(Seq::<Frame>::empty().push(
        Frame { entries: Seq::empty(), name: Seq::empty() },
    ) =~= seq![Frame { entries: Seq::<(Seq<char>, ValModel)>::empty(), name: Seq::<char>::empty() }]);
    if items.len() == 1 {
        assert(final_cur =~= seq![(name, rs[0])]);
        assert(ValModel::Mapping(final_cur) == ValModel::Mapping(seq![(name, rs[0])]));
    } else {
        assert(rs.take(items.len() as int) =~= rs);
        assert(final_cur =~= seq![(name, ValModel::Sequence(rs))]);
    }
}

/// For scalar items the general sibling rendering is the per-item child
/// texts.
proof fn lemma_siblings_cat_eq(items: Seq<ValModel>, j: int, name: Seq<char>)
    requires
        0 <= j <= items.len(),
        forall|x: int| 0 <= x < items.len() ==> is_scalar_model(#[trigger] items[x]),
    ensures
        seq_items_text(items, j, Some(name)) == siblings_cat(items, j, name),
    decreases items.len() - j,
{
    if j < items.len() {
        lemma_siblings_cat_eq(items, j + 1, name);
        assert(markup_value_text(items[j], Some(name)) == child_text((name, items[j])));
    }
}

/// Consuming one self-closing attribute-only child and the closing wrapper
/// tag yields the single-entry document.
#[verifier::rlimit(100)]
proof fn lemma_attr_child(
    s: Seq<char>,
    i: int,
    tag: Seq<char>,
    attrs: Seq<(Seq<char>, ValModel)>,
)
    requires
        0 <= i <= s.len(),
        tag_name_ok(tag),
        attr_doc_ok(attrs),
        s.skip(i) == (seq!['<'] + tag + attrs_text(attrs, 0) + seq!['/', '>']) + (seq!['<', '/']
            + wrapper_tag() + seq!['>']),
    ensures
        parse_markup_rec(
            s,
            i,
            seq![Frame { entries: Seq::empty(), name: Seq::empty() }],
            Seq::empty(),
            wrapper_tag(),
            Seq::empty(),
        ) == Ok::<ValModel, StructuralError>(
            ValModel::Mapping(seq![(tag, ValModel::Mapping(reinfer_entries(attrs)))]),
        ),
{
    let iat = attrs_text(attrs, 0);
    let tl = tag.len() as int;
    let il = iat.len() as int;
    let child = seq!['<'] + tag + iat + seq!['/', '>'];
    let close_root = seq!['<', '/'] + wrapper_tag() + seq!['>'];
    assert(close_root =~= seq!['<', '/', 'r', 'o', 'o', 't', '>']);
    assert(forall|x: int| 0 <= x < s.len() - i ==> s.skip(i)[x] == s[i + x]);
    assert(s.skip(i) == child + close_root);
    assert(s.skip(i).len() == s.len() - i);
    assert((child + close_root).len() == child.len() + close_root.len());
    assert(close_root.len() == 7);
    assert(s.len() - i == child.len() + 7);
    assert forall|x: int| 0 <= x < child.len() implies s[i + x] == #[trigger] child[x] by {
        assert(s.skip(i)[x] == (child + close_root)[x]);
    }
    assert forall|x: int| 0 <= x < 7 implies s[i + child.len() + x] == #[trigger] close_root[x]
        by {
        assert(s.skip(i)[child.len() + x] == (child + close_root)[child.len() + x]);
    }
    // Character positions of the child.
    assert(child[0] == '<' && (forall|x: int| 0 <= x < tl ==> child[1 + x] == tag[x]) && (forall|
        x: int,
    |
        0 <= x < il ==> child[1 + tl + x] == iat[x]) && child[1 + tl + il] == '/' && child[2 + tl
        + il] == '>') by {
        let p1 = seq!['<'] + tag;
        let p2 = p1 + iat;
        assert(child == p2 + seq!['/', '>']);
        assert(p1[0] == '<');
        assert(forall|x: int| 0 <= x < tl ==> p1[1 + x] == #[trigger] tag[x]);
        assert(forall|x: int| 0 <= x < il ==> p2[1 + tl + x] == #[trigger] iat[x]);
        assert(child[1 + tl + il] == '/');
        assert(child[2 + tl + il] == '>');
        assert(forall|x: int| 0 <= x < p1.len() ==> child[x] == #[trigger] p1[x]);
        assert(forall|x: int| 0 <= x < p2.len() ==> child[x] == #[trigger] p2[x]);
    }
    // The opening tag name.
    assert(s[i] == '<');
    assert(s[i + 1] == tag[0]);
    assert(is_tag_char(tag[0]));
    let ne = i + 1 + tl;
    assert(iat.len() >= 1) by {
        assert(is_attr_entry(attrs[0]) && is_scalar_model(attrs[0].1)) by {
            assert(attrs[0].0[0] == '@');
        }
        assert(attrs_text(attrs, 0) == attr_text(attrs[0]) + attrs_text(attrs, 1));
        assert(attr_text(attrs[0]).len() >= 1);
    }
    assert forall|x: int| i + 1 <= x < ne implies !is_name_end(#[trigger] s[x]) by {
        assert(s[x] == child[x - i]);
        assert(child[x - i] == tag[x - i - 1]);
        assert(is_tag_char(tag[x - i - 1]));
    }
    assert(s[ne] == iat[0]);
    assert(iat[0] == ' ') by {
        assert(attrs_text(attrs, 0) == attr_text(attrs[0]) + attrs_text(attrs, 1));
        assert(attr_text(attrs[0])[0] == ' ');
    }
    assert(is_name_end(s[ne]));
    lemma_pin_scan_name(s, i + 1, ne);
    assert(s.subrange(i + 1, ne) =~= tag);
    // The attributes through the self-closing mark.
    assert(s.subrange(ne, ne + il + 2) =~= iat + seq!['/', '>']) by {
        let tailseg = iat + seq!['/', '>'];
        assert forall|x: int| 0 <= x < il + 2 implies s[ne + x] == #[trigger] tailseg[x] by {
            assert(s[ne + x] == child[ne + x - i]);
            assert(ne + x - i == 1 + tl + x);
            if x < il {
                assert(child[1 + tl + x] == iat[x]);
            }
        }
    }
    assert(reinfer_entries(attrs).take(0) =~= Seq::<(Seq<char>, ValModel)>::empty());
    lemma_consume_attrs(s, ne, attrs, 0, Seq::empty());
    let rattrs = reinfer_entries(attrs);
    let after_child = ne + il + 2;
    assert(after_child == i + child.len());
    // The self-closing child becomes a mapping of the re-inferred values.
    let value = finalize_element(rattrs, Seq::empty());
    assert(rattrs.len() == attrs.len() >= 1);
    assert(value == ValModel::Mapping(rattrs));
    let cur1 = crate::value::model_collapse_insert(Seq::empty(), tag, value);
    assert(!crate::value::model_map_has_key(Seq::empty(), tag));
    assert(cur1 =~= seq![(tag, value)]);
    // The closing wrapper tag.
    assert(s[after_child] == '<' && s[after_child + 1] == '/' && s[after_child + 6] == '>');
    assert forall|x: int| after_child + 2 <= x < after_child + 6 implies #[trigger] s[x] != '>'
        by {
        assert(s[x] == close_root[x - after_child]);
    }
    lemma_pin_scan_to(s, after_child + 2, after_child + 6, '>');
    assert(s.subrange(after_child + 2, after_child + 6) =~= wrapper_tag());
    let rootval = finalize_element(cur1, Seq::empty());
    assert(rootval == ValModel::Mapping(cur1));
    let topcur = crate::value::model_collapse_insert(Seq::empty(), wrapper_tag(), rootval);
    assert(!crate::value::model_map_has_key(Seq::empty(), wrapper_tag()));
    assert(topcur =~= seq![(wrapper_tag(), rootval)]);
    assert(after_child + 7 == s.len());
    assert(finalize_document(0, topcur, Seq::empty()) == Ok::<ValModel, StructuralError>(
        rootval,
    ));
    assert(cur1 =~= seq![(tag, ValModel::Mapping(rattrs))]);
    let st0 = seq![Frame { entries: Seq::<(Seq<char>, ValModel)>::empty(), name: Seq::<char>::empty() }];
    let st1 = st0.push(Frame { entries: Seq::empty(), name: wrapper_tag() });
    assert(st1.last() == Frame { entries: Seq::<(Seq<char>, ValModel)>::empty(), name: wrapper_tag() });
    assert(st1.drop_last() =~= st0);
    assert(st0.last() == Frame { entries: Seq::<(Seq<char>, ValModel)>::empty(), name: Seq::<char>::empty() });
    assert(st0.drop_last() =~= Seq::<Frame>::empty());
    // The three steps of the parse, one token each.
    assert(parse_markup_rec(s, i, st0, Seq::empty(), wrapper_tag(), Seq::empty())
        == parse_markup_rec(s, after_child, st0, cur1, wrapper_tag(), Seq::empty())) by {
        assert(s[i + 1] != '/' && s[i + 1] != '!' && s[i + 1] != '?');
        assert(scan_name_end(s, i + 1) == ne);
        assert(ne != i + 1);
    }
    assert(parse_markup_rec(s, after_child, st0, cur1, wrapper_tag(), Seq::empty())
        == parse_markup_rec(
        s,
        after_child + 7,
        st0.drop_last(),
        topcur,
        Seq::empty(),
        Seq::empty(),
    )) by {
        assert(scan_to(s, after_child + 2, '>') == after_child + 6);
        assert(s.subrange(after_child + 2, after_child + 6) == wrapper_tag());
        assert(st0.len() != 0);
    }
    assert(parse_markup_rec(
        s,
        after_child + 7,
        st0.drop_last(),
        topcur,
        Seq::empty(),
        Seq::empty(),
    ) == finalize_document(0, topcur, Seq::empty()));
}

/// The markup round trip for a one-element document holding only
/// attributes, modulo re-inference: the attribute-marked entries come back
/// under the same names with their values re-inferred, never merged into or
/// overwritten by anything else.
#[verifier::rlimit(100)]
#[verifier::spinoff_prover]
pub proof fn lemma_markup_attr_round_trip(tag: Seq<char>, attrs: Seq<(Seq<char>, ValModel)>)
    requires
        tag_name_ok(tag),
        attr_doc_ok(attrs),
    ensures
        ({
            let m = ValModel::Mapping(seq![(tag, ValModel::Mapping(attrs))]);
            parse_markup_model(markup_text(m)) == Ok::<ValModel, StructuralError>(
                ValModel::Mapping(seq![(tag, ValModel::Mapping(reinfer_entries(attrs)))]),
            )
        }),
{
    let inner = ValModel::Mapping(attrs);
    let top = seq![(tag, inner)];
    let m = ValModel::Mapping(top);
    let s = markup_text(m);
    // The top element has one child and nothing else.
    assert(forall|j: int| 0 <= j < top.len() ==> !is_attr_entry(#[trigger] top[j])) by {
        assert(is_tag_char(tag[0]));
    }
    lemma_attrs_text_empty(top, 0);
    assert(inline_text(top) is None) by {
        crate::value::lemma_map_index_of(top, text_key());
        if crate::value::model_map_has_key(top, text_key()) {
            let j = choose|j: int| 0 <= j < top.len() && #[trigger] top[j].0 == text_key();
            assert(top[j].0 == tag);
            assert(tag != text_key());
        }
    }
    assert(has_child_entry(top)) by {
        assert(is_child_entry(top[0])) by {
            assert(is_tag_char(tag[0]));
        }
    }
    // The inner element has attributes and nothing else.
    let iat = attrs_text(attrs, 0);
    assert(!has_child_entry(attrs)) by {
        if has_child_entry(attrs) {
            let j = choose|j: int| 0 <= j < attrs.len() && is_child_entry(#[trigger] attrs[j]);
            assert(attr_name_ok(attrs[j].0));
            assert(is_attr_entry(attrs[j]));
        }
    }
    assert(inline_text(attrs) is None) by {
        crate::value::lemma_map_index_of(attrs, text_key());
        if crate::value::model_map_has_key(attrs, text_key()) {
            let j = choose|j: int| 0 <= j < attrs.len() && #[trigger] attrs[j].0 == text_key();
            assert(attr_name_ok(attrs[j].0));
            assert(text_key()[0] == '#');
        }
    }
    let child = seq!['<'] + tag + iat + seq!['/', '>'];
    assert(markup_value_text(inner, Some(tag)) == child);
    assert(children_text(top, 0) =~= child) by {
        assert(children_text(top, 1) =~= Seq::<char>::empty());
        assert(child + Seq::<char>::empty() =~= child);
    }
    let open_root = seq!['<'] + wrapper_tag() + Seq::<char>::empty() + seq!['>'];
    let close_root = seq!['<', '/'] + wrapper_tag() + seq!['>'];
    assert(s == open_root + child + Seq::<char>::empty() + close_root);
    assert(s =~= open_root + (child + close_root));
    assert(open_root =~= seq!['<', 'r', 'o', 'o', 't', '>']);
    assert(s.len() == 6 + child.len() + 7);
    assert forall|x: int| 0 <= x < 6 implies s[x] == #[trigger] open_root[x] by {
        assert(s[x] == (open_root + (child + close_root))[x]);
    }
    // Consume the opening wrapper tag.
    assert(s[0] == '<' && s[1] == 'r' && s[5] == '>');
    assert forall|x: int| 1 <= x < 5 implies !is_name_end(#[trigger] s[x]) by {
        assert(s[x] == open_root[x]);
    }
    lemma_pin_scan_name(s, 1, 5);
    assert(s.subrange(1, 5) =~= wrapper_tag());
    assert(parse_attrs(s, 5, Seq::empty()) == Ok::<(Seq<(Seq<char>, ValModel)>, int, bool), int>(
        (Seq::empty(), 6, false),
    ));
    assert(s.skip(6) =~= child + close_root);
    lemma_attr_child(s, 6, tag, attrs);
    assert(Seq::<Frame>::empty().push(
        Frame { entries: Seq::empty(), name: Seq::empty() },
    ) =~= seq![Frame { entries: Seq::<(Seq<char>, ValModel)>::empty(), name: Seq::<char>::empty() }]);
}

/// Serializes any canonical value as a markup byte stream; a nameless root
/// is wrapped in the reserved wrapper tag. Serialization never fails.
pub fn serialize_markup(v: &Value) -> (r: Result<Vec<u8>, StructuralError>)
    ensures
        r matches Ok(bytes) && bytes@ == vstd::utf8::encode_utf8(markup_text(v@)),
{
    let mut out: Vec<char> = Vec::new();
    write_value(v, None, &mut out);
    proof {
        assert(out@ =~= markup_text(v@));
    }
    Ok(crate::text::bytes_of_chars(&out))
}

} // verus!
