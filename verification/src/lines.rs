use vstd::prelude::*;

verus! {

broadcast use vstd::seq::axiom_seq_index_decreases;

use crate::scalar::{
    float_norm_of, int_text, is_ascii_digit, is_blank_char, is_i64_text, i64_text_val,
};
use crate::value::{StructuralError, ValModel, Value};

// ---------------------------------------------------------------------------
// The line-delimited variant: each line is one self-contained record,
// written and read by a self-describing codec — the JSON value grammar.
// The codec itself is the bridge's own verified logic; only the float
// normalizer behind it is an outside call.
// ---------------------------------------------------------------------------

/// The lower-case hexadecimal digit for a value below sixteen.
pub open spec fn hex_char(d: int) -> char {
    if d < 10 {
        crate::scalar::digit_char(d)
    } else if d == 10 {
        'a'
    } else if d == 11 {
        'b'
    } else if d == 12 {
        'c'
    } else if d == 13 {
        'd'
    } else if d == 14 {
        'e'
    } else {
        'f'
    }
}

/// How one character is written inside an encoded string: quote and
/// backslash escaped, the five short control escapes, other control
/// characters as a four-digit escape, everything else as itself.
pub open spec fn json_escape_char(c: char) -> Seq<char> {
    if c == '"' {
        seq!['\\', '"']
    } else if c == '\\' {
        seq!['\\', '\\']
    } else if c == '\u{8}' {
        seq!['\\', 'b']
    } else if c == '\t' {
        seq!['\\', 't']
    } else if c == '\n' {
        seq!['\\', 'n']
    } else if c == '\u{c}' {
        seq!['\\', 'f']
    } else if c == '\r' {
        seq!['\\', 'r']
    } else if (c as u32) < 32 {
        let hi = hex_char(c as u32 as int / 16);
        let lo = hex_char(c as u32 as int % 16);
        seq!['\\', 'u', '0', '0', hi, lo]
    } else {
        seq![c]
    }
}

pub open spec fn json_escape(s: Seq<char>) -> Seq<char>
    decreases s.len(),
{
    if s.len() == 0 {
        Seq::empty()
    } else {
        json_escape_char(s[0]) + json_escape(s.drop_first())
    }
}

pub open spec fn json_string_text(s: Seq<char>) -> Seq<char> {
    seq!['"'] + json_escape(s) + seq!['"']
}

/// The compact encoding of a canonical value: `null`, the boolean
/// literals, canonical integer text, the float's stored text, quoted
/// strings, and bracketed sequences and maps with no added whitespace.
pub open spec fn json_value_text(m: ValModel) -> Seq<char>
    decreases m, 2int, 0int,
{
    match m {
        ValModel::Null => seq!['n', 'u', 'l', 'l'],
        ValModel::Boolean(b) => if b {
            seq!['t', 'r', 'u', 'e']
        } else {
            seq!['f', 'a', 'l', 's', 'e']
        },
        ValModel::Integer(i) => int_text(i),
        ValModel::Float(t) => t,
        ValModel::Text(s) => json_string_text(s),
        ValModel::Sequence(items) => seq!['['] + json_items_text(items, 0) + seq![']'],
        ValModel::Mapping(entries) => seq!['{'] + json_entries_text(entries, 0) + seq!['}'],
    }
}

pub open spec fn json_items_text(items: Seq<ValModel>, k: int) -> Seq<char>
    decreases items, items.len() - k, 1int,
{
    if k < 0 || k >= items.len() {
        Seq::empty()
    } else if k == items.len() - 1 {
        json_value_text(items[k])
    } else {
        json_value_text(items[k]) + seq![','] + json_items_text(items, k + 1)
    }
}

pub open spec fn json_entries_text(entries: Seq<(Seq<char>, ValModel)>, k: int) -> Seq<char>
    decreases entries, entries.len() - k, 1int,
{
    if k < 0 || k >= entries.len() {
        Seq::empty()
    } else if k == entries.len() - 1 {
        json_string_text(entries[k].0) + seq![':'] + json_value_text(entries[k].1)
    } else {
        json_string_text(entries[k].0) + seq![':'] + json_value_text(entries[k].1) + seq![',']
            + json_entries_text(entries, k + 1)
    }
}

/// What the line serializer accepts: any sequence of records (each record
/// any canonical value, as the codec is self-describing).
pub open spec fn lines_serializable(m: ValModel) -> bool {
    m is Sequence
}

/// The record lines of the document, each ended by a newline.
pub open spec fn lines_body(records: Seq<ValModel>, i: int) -> Seq<char>
    decreases records.len() - i,
{
    if i < 0 || i >= records.len() {
        Seq::empty()
    } else {
        json_value_text(records[i]) + seq!['\n'] + lines_body(records, i + 1)
    }
}

pub open spec fn lines_text(m: ValModel) -> Seq<char> {
    lines_body(m->Sequence_0, 0)
}

// ---------------------------------------------------------------------------
// The decode grammar: one self-contained value per line. Numbers are
// classified like the inference engine: an in-range integer token is an
// integer (a negative-zero token included), everything else goes through
// the float normalizer.
// ---------------------------------------------------------------------------

/// First position at or after `i` holding a non-blank character, or the
/// text's length.
pub open spec fn skip_blanks(s: Seq<char>, i: int) -> int
    decreases s.len() - i,
{
    if i < 0 || i >= s.len() {
        s.len() as int
    } else if is_blank_char(s[i]) {
        skip_blanks(s, i + 1)
    } else {
        i
    }
}

pub proof fn lemma_skip_blanks(s: Seq<char>, i: int)
    requires
        0 <= i <= s.len(),
    ensures
        i <= skip_blanks(s, i) <= s.len(),
        skip_blanks(s, i) < s.len() ==> !is_blank_char(s[skip_blanks(s, i)]),
    decreases s.len() - i,
{
    if i < s.len() && is_blank_char(s[i]) {
        lemma_skip_blanks(s, i + 1);
    }
}

/// First position at or after `i` holding a non-digit, or the text's
/// length.
pub open spec fn scan_digits(s: Seq<char>, i: int) -> int
    decreases s.len() - i,
{
    if i < 0 || i >= s.len() {
        s.len() as int
    } else if is_ascii_digit(s[i]) {
        scan_digits(s, i + 1)
    } else {
        i
    }
}

pub proof fn lemma_scan_digits(s: Seq<char>, i: int)
    requires
        0 <= i <= s.len(),
    ensures
        i <= scan_digits(s, i) <= s.len(),
        scan_digits(s, i) < s.len() ==> !is_ascii_digit(s[scan_digits(s, i)]),
        forall|k: int| i <= k < scan_digits(s, i) ==> is_ascii_digit(#[trigger] s[k]),
    decreases s.len() - i,
{
    if i < s.len() && is_ascii_digit(s[i]) {
        lemma_scan_digits(s, i + 1);
    }
}

/// Scans one number token starting at `i`: an optional minus, an integer
/// part with no leading zero, an optional fraction and an optional
/// exponent. Gives the end position and whether the token was bare digits
/// (no fraction, no exponent); or the position of the fault.
pub open spec fn scan_number(s: Seq<char>, i: int) -> Result<(int, bool), int> {
    let d = if 0 <= i < s.len() && s[i] == '-' {
        i + 1
    } else {
        i
    };
    if !(0 <= d < s.len() && is_ascii_digit(s[d])) {
        Err(i)
    } else {
        let int_end = if s[d] == '0' {
            d + 1
        } else {
            scan_digits(s, d)
        };
        let frac_end = if int_end < s.len() && s[int_end] == '.' {
            let fe = scan_digits(s, int_end + 1);
            if fe == int_end + 1 {
                -1
            } else {
                fe
            }
        } else {
            int_end
        };
        if frac_end < 0 {
            Err(i)
        } else {
            let exp_end = if frac_end < s.len() && (s[frac_end] == 'e' || s[frac_end] == 'E') {
                let es = if frac_end + 1 < s.len() && (s[frac_end + 1] == '+' || s[frac_end + 1]
                    == '-') {
                    frac_end + 2
                } else {
                    frac_end + 1
                };
                let ee = scan_digits(s, es);
                if ee == es {
                    -1
                } else {
                    ee
                }
            } else {
                frac_end
            };
            if exp_end < 0 {
                Err(i)
            } else {
                Ok((exp_end, frac_end == int_end && exp_end == frac_end))
            }
        }
    }
}

/// A character of a number token.
pub open spec fn is_number_char(c: char) -> bool {
    is_ascii_digit(c) || c == '-' || c == '+' || c == '.' || c == 'e' || c == 'E'
}

/// A successful number scan moves forward, stays inside the text, covers
/// only number characters, and a token that is not bare digits is not an
/// integer literal.
pub proof fn lemma_scan_number(s: Seq<char>, i: int)
    requires
        0 <= i <= s.len(),
        scan_number(s, i) is Ok,
    ensures
        ({
            let (end, is_int) = scan_number(s, i)->Ok_0;
            &&& i < end <= s.len()
            &&& (forall|k: int| i <= k < end ==> is_number_char(#[trigger] s[k]))
            &&& (!is_int ==> !is_i64_text(s.subrange(i, end)))
        }),
{
    let (end, is_int) = scan_number(s, i)->Ok_0;
    let d = if s[i] == '-' {
        i + 1
    } else {
        i
    };
    lemma_scan_digits(s, d);
    let int_end = if s[d] == '0' {
        d + 1
    } else {
        scan_digits(s, d)
    };
    assert(d < int_end <= s.len());
    assert(forall|k: int| d <= k < int_end ==> is_ascii_digit(#[trigger] s[k]));
    let tok = s.subrange(i, end);
    if int_end < s.len() && s[int_end] == '.' {
        lemma_scan_digits(s, int_end + 1);
    }
    let frac_end = if int_end < s.len() && s[int_end] == '.' {
        scan_digits(s, int_end + 1)
    } else {
        int_end
    };
    if frac_end < s.len() && (s[frac_end] == 'e' || s[frac_end] == 'E') {
        let es = if frac_end + 1 < s.len() && (s[frac_end + 1] == '+' || s[frac_end + 1] == '-') {
            frac_end + 2
        } else {
            frac_end + 1
        };
        lemma_scan_digits(s, es);
    }
    assert(forall|k: int| i <= k < end ==> is_number_char(#[trigger] s[k]));
    if !is_int {
        // The token holds a `.` or an exponent marker past the digits.
        let p = int_end - i;
        assert(1 <= p < tok.len());
        assert(tok[p] == s[int_end]);
        assert(tok[p] == '.' || tok[p] == 'e' || tok[p] == 'E');
        assert(!is_i64_text(tok)) by {
            if is_i64_text(tok) {
                let ds = crate::scalar::i64_digits(tok);
                if tok[0] == '+' || tok[0] == '-' {
                    assert(ds[p - 1] == tok[p]);
                    assert(is_ascii_digit(ds[p - 1]));
                } else {
                    assert(ds[p] == tok[p]);
                    assert(is_ascii_digit(ds[p]));
                }
            }
        }
    }
}

/// A hexadecimal digit and its value.
pub open spec fn is_hex_digit(c: char) -> bool {
    is_ascii_digit(c) || ('a' <= c && c <= 'f') || ('A' <= c && c <= 'F')
}

pub open spec fn hex_val(c: char) -> int {
    if is_ascii_digit(c) {
        crate::scalar::digit_val(c)
    } else if 'a' <= c && c <= 'f' {
        c as u32 - 87
    } else {
        c as u32 - 55
    }
}

/// The value of the four hex digits at `i`.
pub open spec fn hex4_val(s: Seq<char>, i: int) -> int {
    hex_val(s[i]) * 4096 + hex_val(s[i + 1]) * 256 + hex_val(s[i + 2]) * 16 + hex_val(s[i + 3])
}

pub open spec fn four_hex_at(s: Seq<char>, i: int) -> bool {
    &&& i + 4 <= s.len()
    &&& is_hex_digit(s[i])
    &&& is_hex_digit(s[i + 1])
    &&& is_hex_digit(s[i + 2])
    &&& is_hex_digit(s[i + 3])
}

/// Reads the interior of an encoded string from `i` (just past the opening
/// quote): the accumulated characters and the position past the closing
/// quote, or the position of the fault. Escapes cover the two quoting
/// characters, the solidus, the five control shorthands and four-digit
/// escapes, with surrogate pairs combined; raw control characters are
/// refused.
pub open spec fn parse_string_rec(s: Seq<char>, i: int, acc: Seq<char>) -> Result<
    (Seq<char>, int),
    int,
>
    decreases s.len() - i,
{
    if i < 0 || i >= s.len() {
        Err(s.len() as int)
    } else {
        let c = s[i];
        if c == '"' {
            Ok((acc, i + 1))
        } else if c == '\\' {
            if i + 1 >= s.len() {
                Err(i)
            } else {
                let e = s[i + 1];
                if e == '"' {
                    parse_string_rec(s, i + 2, acc.push('"'))
                } else if e == '\\' {
                    parse_string_rec(s, i + 2, acc.push('\\'))
                } else if e == '/' {
                    parse_string_rec(s, i + 2, acc.push('/'))
                } else if e == 'b' {
                    parse_string_rec(s, i + 2, acc.push('\u{8}'))
                } else if e == 'f' {
                    parse_string_rec(s, i + 2, acc.push('\u{c}'))
                } else if e == 'n' {
                    parse_string_rec(s, i + 2, acc.push('\n'))
                } else if e == 'r' {
                    parse_string_rec(s, i + 2, acc.push('\r'))
                } else if e == 't' {
                    parse_string_rec(s, i + 2, acc.push('\t'))
                } else if e == 'u' {
                    if !four_hex_at(s, i + 2) {
                        Err(i)
                    } else {
                        let cp = hex4_val(s, i + 2);
                        if 0xD800 <= cp && cp < 0xDC00 {
                            // A high surrogate must pair with a low one.
                            if i + 12 <= s.len() && s[i + 6] == '\\' && s[i + 7] == 'u'
                                && four_hex_at(s, i + 8) {
                                let lo = hex4_val(s, i + 8);
                                if 0xDC00 <= lo && lo < 0xE000 {
                                    let combined = 0x10000 + (cp - 0xD800) * 0x400 + (lo - 0xDC00);
                                    parse_string_rec(s, i + 12, acc.push(combined as char))
                                } else {
                                    Err(i)
                                }
                            } else {
                                Err(i)
                            }
                        } else if 0xDC00 <= cp && cp < 0xE000 {
                            Err(i)
                        } else {
                            parse_string_rec(s, i + 6, acc.push(cp as char))
                        }
                    }
                } else {
                    Err(i)
                }
            }
        } else if (c as u32) < 32 {
            Err(i)
        } else {
            parse_string_rec(s, i + 1, acc.push(c))
        }
    }
}

/// A successful string read moves past the opening position.
pub proof fn lemma_parse_string_progress(s: Seq<char>, i: int, acc: Seq<char>)
    requires
        0 <= i <= s.len(),
    ensures
        parse_string_rec(s, i, acc) matches Ok(o) ==> i < o.1 <= s.len(),
    decreases s.len() - i,
{
    if 0 <= i < s.len() {
        let c = s[i];
        if c == '"' {
        } else if c == '\\' && i + 1 < s.len() {
            let e = s[i + 1];
            if e == '"' || e == '\\' || e == '/' || e == 'b' || e == 'f' || e == 'n' || e == 'r'
                || e == 't' {
                lemma_parse_string_progress(s, i + 2, acc.push(' '));
                lemma_parse_string_progress(s, i + 2, acc.push('"'));
                lemma_parse_string_progress(s, i + 2, acc.push('\\'));
                lemma_parse_string_progress(s, i + 2, acc.push('/'));
                lemma_parse_string_progress(s, i + 2, acc.push('\u{8}'));
                lemma_parse_string_progress(s, i + 2, acc.push('\u{c}'));
                lemma_parse_string_progress(s, i + 2, acc.push('\n'));
                lemma_parse_string_progress(s, i + 2, acc.push('\r'));
                lemma_parse_string_progress(s, i + 2, acc.push('\t'));
            } else if e == 'u' && four_hex_at(s, i + 2) {
                let cp = hex4_val(s, i + 2);
                if 0xD800 <= cp && cp < 0xDC00 {
                    if i + 12 <= s.len() && s[i + 6] == '\\' && s[i + 7] == 'u' && four_hex_at(
                        s,
                        i + 8,
                    ) {
                        let lo = hex4_val(s, i + 8);
                        let combined = 0x10000 + (cp - 0xD800) * 0x400 + (lo - 0xDC00);
                        lemma_parse_string_progress(s, i + 12, acc.push(combined as char));
                    }
                } else {
                    lemma_parse_string_progress(s, i + 6, acc.push(cp as char));
                }
            }
        } else if (c as u32) >= 32 {
            lemma_parse_string_progress(s, i + 1, acc.push(c));
        }
    }
}

/// Reads one value whose first character stands at `i` (no leading
/// whitespace): the value's model and the position just past it, or the
/// position of the fault.
pub open spec fn parse_json_value(s: Seq<char>, i: int) -> Result<(ValModel, int), int>
    decreases s.len() - i, 0int,
{
    if i < 0 || i >= s.len() {
        Err(if i < 0 {
            0
        } else {
            s.len() as int
        })
    } else {
        let c = s[i];
        if c == 'n' {
            if i + 4 <= s.len() && s[i + 1] == 'u' && s[i + 2] == 'l' && s[i + 3] == 'l' {
                Ok((ValModel::Null, i + 4))
            } else {
                Err(i)
            }
        } else if c == 't' {
            if i + 4 <= s.len() && s[i + 1] == 'r' && s[i + 2] == 'u' && s[i + 3] == 'e' {
                Ok((ValModel::Boolean(true), i + 4))
            } else {
                Err(i)
            }
        } else if c == 'f' {
            if i + 5 <= s.len() && s[i + 1] == 'a' && s[i + 2] == 'l' && s[i + 3] == 's' && s[i
                + 4] == 'e' {
                Ok((ValModel::Boolean(false), i + 5))
            } else {
                Err(i)
            }
        } else if c == '"' {
            match parse_string_rec(s, i + 1, Seq::empty()) {
                Err(p) => Err(p),
                Ok((str, j)) => Ok((ValModel::Text(str), j)),
            }
        } else if c == '[' {
            let j = skip_blanks(s, i + 1);
            proof {
                lemma_skip_blanks(s, i + 1);
            }
            if j < s.len() && s[j] == ']' {
                Ok((ValModel::Sequence(Seq::empty()), j + 1))
            } else {
                parse_json_elems(s, i + 1, Seq::empty())
            }
        } else if c == '{' {
            let j = skip_blanks(s, i + 1);
            proof {
                lemma_skip_blanks(s, i + 1);
            }
            if j < s.len() && s[j] == '}' {
                Ok((ValModel::Mapping(Seq::empty()), j + 1))
            } else {
                parse_json_members(s, i + 1, Seq::empty())
            }
        } else if c == '-' || is_ascii_digit(c) {
            match scan_number(s, i) {
                Err(p) => Err(p),
                Ok((end, is_int)) => {
                    let tok = s.subrange(i, end);
                    if is_int && is_i64_text(tok) {
                        Ok((ValModel::Integer(i64_text_val(tok)), end))
                    } else {
                        match float_norm_of(tok) {
                            Some(t) => Ok((ValModel::Float(t), end)),
                            None => Err(i),
                        }
                    }
                },
            }
        } else {
            Err(i)
        }
    }
}

/// Reads the remaining elements of a non-empty array, from just past the
/// opening bracket or a comma.
pub open spec fn parse_json_elems(s: Seq<char>, i: int, acc: Seq<ValModel>) -> Result<
    (ValModel, int),
    int,
>
    decreases s.len() - i, 1int,
{
    if i < 0 || i > s.len() {
        Err(0)
    } else {
        let j = skip_blanks(s, i);
        proof {
            lemma_skip_blanks(s, i);
        }
        match parse_json_value(s, j) {
            Err(p) => Err(p),
            Ok((v, k)) => if !(j < k <= s.len()) {
                Err(j)
            } else {
                let l = skip_blanks(s, k);
                proof {
                    lemma_skip_blanks(s, k);
                }
                if l >= s.len() {
                    Err(l)
                } else if s[l] == ',' {
                    parse_json_elems(s, l + 1, acc.push(v))
                } else if s[l] == ']' {
                    Ok((ValModel::Sequence(acc.push(v)), l + 1))
                } else {
                    Err(l)
                }
            },
        }
    }
}

/// Reads the remaining members of a non-empty object, from just past the
/// opening brace or a comma; a repeated name overwrites in place.
pub open spec fn parse_json_members(
    s: Seq<char>,
    i: int,
    acc: Seq<(Seq<char>, ValModel)>,
) -> Result<(ValModel, int), int>
    decreases s.len() - i, 1int,
{
    if i < 0 || i > s.len() {
        Err(0)
    } else {
        let j = skip_blanks(s, i);
        proof {
            lemma_skip_blanks(s, i);
        }
        if j >= s.len() || s[j] != '"' {
            Err(j)
        } else {
            match parse_string_rec(s, j + 1, Seq::empty()) {
                Err(p) => Err(p),
                Ok((key, k)) => if !(j < k <= s.len()) {
                    Err(j)
                } else {
                    let l = skip_blanks(s, k);
                    proof {
                        lemma_skip_blanks(s, k);
                    }
                    if l >= s.len() || s[l] != ':' {
                        Err(l)
                    } else {
                        let m = skip_blanks(s, l + 1);
                        proof {
                            lemma_skip_blanks(s, l + 1);
                        }
                        match parse_json_value(s, m) {
                            Err(p) => Err(p),
                            Ok((v, p)) => if !(m < p <= s.len()) {
                                Err(m)
                            } else {
                                let acc2 = crate::value::model_map_insert(acc, key, v);
                                let q = skip_blanks(s, p);
                                proof {
                                    lemma_skip_blanks(s, p);
                                }
                                if q >= s.len() {
                                    Err(q)
                                } else if s[q] == ',' {
                                    parse_json_members(s, q + 1, acc2)
                                } else if s[q] == '}' {
                                    Ok((ValModel::Mapping(acc2), q + 1))
                                } else {
                                    Err(q)
                                }
                            },
                        }
                    }
                },
            }
        }
    }
}

/// Reads one line: surrounding whitespace tolerated, exactly one value.
pub open spec fn parse_json_line(line: Seq<char>) -> Option<ValModel> {
    let j = skip_blanks(line, 0);
    match parse_json_value(line, j) {
        Err(_) => None,
        Ok((v, k)) => if 0 <= k <= line.len() && skip_blanks(line, k) == line.len() {
            Some(v)
        } else {
            None
        },
    }
}

pub open spec fn parse_lines_rec(
    lines: Seq<Seq<char>>,
    i: int,
    acc: Seq<ValModel>,
) -> Result<ValModel, StructuralError>
    decreases lines.len() - i,
{
    if i < 0 || i >= lines.len() {
        Ok(ValModel::Sequence(acc))
    } else {
        match parse_json_line(lines[i]) {
            None => Err(StructuralError::Malformed(i as usize)),
            Some(v) => parse_lines_rec(lines, i + 1, acc.push(v)),
        }
    }
}

/// The text-level line-delimited parse: every line is read independently;
/// a malformed line fails the whole conversion with its index.
pub open spec fn parse_lines_model(s: Seq<char>) -> Result<ValModel, StructuralError> {
    parse_lines_rec(crate::rows::split_lines(s), 0, Seq::empty())
}

/// The byte-level parse: an encoding error on invalid UTF-8, otherwise the
/// text-level parse.
pub open spec fn lines_parse_result(bytes: Seq<u8>) -> Result<ValModel, StructuralError> {
    if !vstd::utf8::valid_utf8(bytes) {
        Err(StructuralError::Encoding)
    } else {
        parse_lines_model(vstd::utf8::decode_utf8(bytes))
    }
}

// ---------------------------------------------------------------------------
// Executable serialization.
// ---------------------------------------------------------------------------

/// The lower-case hexadecimal digit, as executable code.
fn hex_char_exec(d: u32) -> (r: char)
    requires
        d < 16,
    ensures
        r == hex_char(d as int),
{
    match d {
        0 => '0',
        1 => '1',
        2 => '2',
        3 => '3',
        4 => '4',
        5 => '5',
        6 => '6',
        7 => '7',
        8 => '8',
        9 => '9',
        10 => 'a',
        11 => 'b',
        12 => 'c',
        13 => 'd',
        14 => 'e',
        _ => 'f',
    }
}

/// Escaping one more character appends its escaped form.
proof fn lemma_json_escape_snoc(s: Seq<char>, c: char)
    ensures
        json_escape(s.push(c)) == json_escape(s) + json_escape_char(c),
    decreases s.len(),
{
    if s.len() == 0 {
        assert(s.push(c).drop_first() =~= s);
        assert(s.push(c)[0] == c);
        assert(json_escape(s.push(c)) == json_escape_char(c) + json_escape(s));
        assert(json_escape_char(c) + json_escape(s) =~= json_escape_char(c));
        assert(json_escape(s) + json_escape_char(c) =~= json_escape_char(c));
    } else {
        lemma_json_escape_snoc(s.drop_first(), c);
        assert(s.push(c).drop_first() =~= s.drop_first().push(c));
        assert(s.push(c)[0] == s[0]);
        assert(json_escape(s.push(c)) == json_escape_char(s[0]) + (json_escape(s.drop_first())
            + json_escape_char(c)));
        assert(json_escape_char(s[0]) + (json_escape(s.drop_first()) + json_escape_char(c)) =~= (
        json_escape_char(s[0]) + json_escape(s.drop_first())) + json_escape_char(c));
    }
}

/// Appends the escaped form of a text.
#[verifier::loop_isolation(false)]
fn push_json_escaped(out: &mut Vec<char>, s: &Vec<char>)
    ensures
        final(out)@ == old(out)@ + json_escape(s@),
{
    let n = s.len();
    let mut i: usize = 0;
    proof {
        assert(json_escape(s@.take(0)) =~= Seq::<char>::empty());
        assert(out@ =~= out@ + json_escape(s@.take(0)));
    }
    while i < n
        invariant
            i <= n,
            out@ == old(out)@ + json_escape(s@.take(i as int)),
        decreases n - i,
    {
        let c = s[i];
        if c == '"' || c == '\\' {
            out.push('\\');
            out.push(c);
        } else if c == '\u{8}' {
            out.push('\\');
            out.push('b');
        } else if c == '\t' {
            out.push('\\');
            out.push('t');
        } else if c == '\n' {
            out.push('\\');
            out.push('n');
        } else if c == '\u{c}' {
            out.push('\\');
            out.push('f');
        } else if c == '\r' {
            out.push('\\');
            out.push('r');
        } else if (c as u32) < 32 {
            out.push('\\');
            out.push('u');
            out.push('0');
            out.push('0');
            out.push(hex_char_exec(c as u32 / 16));
            out.push(hex_char_exec(c as u32 % 16));
        } else {
            out.push(c);
        }
        proof {
            lemma_json_escape_snoc(s@.take(i as int), c);
            assert(s@.take(i + 1 as int) =~= s@.take(i as int).push(c));
            assert(out@ =~= old(out)@ + json_escape(s@.take(i + 1 as int)));
        }
        i = i + 1;
    }
    proof {
        assert(s@.take(n as int) =~= s@);
    }
}

/// Appends the quoted, escaped form of a string.
fn push_json_string(out: &mut Vec<char>, s: &str)
    ensures
        final(out)@ == old(out)@ + json_string_text(s@),
{
    let cs = crate::text::chars_of_str(s);
    out.push('"');
    push_json_escaped(out, &cs);
    out.push('"');
    proof {
        assert(out@ =~= old(out)@ + (seq!['"'] + json_escape(s@) + seq!['"']));
    }
}

/// Writes one value in its compact encoded form.
#[verifier::rlimit(100)]
#[verifier::loop_isolation(false)]
fn write_json_value(v: &Value, out: &mut Vec<char>)
    ensures
        final(out)@ == old(out)@ + json_value_text(v@),
    decreases v,
{
    match v {
        Value::Null => {
            out.push('n');
            out.push('u');
            out.push('l');
            out.push('l');
            proof {
                assert(out@ =~= old(out)@ + seq!['n', 'u', 'l', 'l']);
            }
        },
        Value::Boolean(b) => {
            if *b {
                out.push('t');
                out.push('r');
                out.push('u');
                out.push('e');
                proof {
                    assert(out@ =~= old(out)@ + seq!['t', 'r', 'u', 'e']);
                }
            } else {
                out.push('f');
                out.push('a');
                out.push('l');
                out.push('s');
                out.push('e');
                proof {
                    assert(out@ =~= old(out)@ + seq!['f', 'a', 'l', 's', 'e']);
                }
            }
        },
        Value::Integer(i) => {
            let mut digits = crate::scalar::format_i64(*i);
            out.append(&mut digits);
        },
        Value::Float(t) => {
            let mut cs = crate::text::chars_of_str(t.as_str());
            out.append(&mut cs);
        },
        Value::Text(s) => {
            push_json_string(out, s.as_str());
        },
        Value::Sequence(items) => {
            let ghost gitems = v@->Sequence_0;
            proof {
                crate::value::lemma_sequence_view(*items);
                assert(gitems =~= crate::value::values_view(items@));
            }
            out.push('[');
            let ghost body_start = out@;
            let ni = items.len();
            let mut j: usize = 0;
            while j < ni
                invariant
                    j <= ni == items@.len(),
                    gitems =~= crate::value::values_view(items@),
                    out@ + json_items_text(gitems, j as int) == body_start + json_items_text(
                        gitems,
                        0,
                    ),
                decreases ni - j,
            {
                let ghost before = out@;
                write_json_value(&items[j], out);
                if j + 1 < ni {
                    out.push(',');
                    proof {
                        assert(json_items_text(gitems, j as int) == json_value_text(
                            gitems[j as int],
                        ) + seq![','] + json_items_text(gitems, j + 1));
                        assert(out@ + json_items_text(gitems, j + 1 as int) =~= before
                            + json_items_text(gitems, j as int));
                    }
                } else {
                    proof {
                        assert(json_items_text(gitems, j as int) == json_value_text(
                            gitems[j as int],
                        ));
                        assert(json_items_text(gitems, j + 1 as int) =~= Seq::<char>::empty());
                        assert(out@ + json_items_text(gitems, j + 1 as int) =~= before
                            + json_items_text(gitems, j as int));
                    }
                }
                j = j + 1;
            }
            proof {
                assert(json_items_text(gitems, ni as int) =~= Seq::<char>::empty());
                assert(out@ + json_items_text(gitems, ni as int) =~= out@);
                assert(out@ =~= body_start + json_items_text(gitems, 0));
            }
            out.push(']');
            proof {
                assert(out@ =~= old(out)@ + (seq!['['] + json_items_text(gitems, 0) + seq![']']));
            }
        },
        Value::Mapping(entries) => {
            let ghost gentries = v@->Mapping_0;
            proof {
                crate::value::lemma_mapping_view(*entries);
                assert(gentries =~= crate::value::entries_view(entries@));
            }
            out.push('{');
            let ghost body_start = out@;
            let ne = entries.len();
            let mut j: usize = 0;
            while j < ne
                invariant
                    j <= ne == entries@.len(),
                    gentries =~= crate::value::entries_view(entries@),
                    out@ + json_entries_text(gentries, j as int) == body_start + json_entries_text(
                        gentries,
                        0,
                    ),
                decreases ne - j,
            {
                let ghost before = out@;
                push_json_string(out, entries[j].0.as_str());
                out.push(':');
                write_json_value(&entries[j].1, out);
                if j + 1 < ne {
                    out.push(',');
                    proof {
                        assert(json_entries_text(gentries, j as int) == json_string_text(
                            gentries[j as int].0,
                        ) + seq![':'] + json_value_text(gentries[j as int].1) + seq![',']
                            + json_entries_text(gentries, j + 1));
                        assert(out@ + json_entries_text(gentries, j + 1 as int) =~= before
                            + json_entries_text(gentries, j as int));
                    }
                } else {
                    proof {
                        assert(json_entries_text(gentries, j as int) == json_string_text(
                            gentries[j as int].0,
                        ) + seq![':'] + json_value_text(gentries[j as int].1));
                        assert(json_entries_text(gentries, j + 1 as int) =~= Seq::<char>::empty());
                        assert(out@ + json_entries_text(gentries, j + 1 as int) =~= before
                            + json_entries_text(gentries, j as int));
                    }
                }
                j = j + 1;
            }
            proof {
                assert(json_entries_text(gentries, ne as int) =~= Seq::<char>::empty());
                assert(out@ + json_entries_text(gentries, ne as int) =~= out@);
                assert(out@ =~= body_start + json_entries_text(gentries, 0));
            }
            out.push('}');
            proof {
                assert(out@ =~= old(out)@ + (seq!['{'] + json_entries_text(gentries, 0) + seq![
                    '}',
                ]));
            }
        },
    }
}

/// Serializes a sequence of records, one self-contained encoded line per
/// record, in compact form; any other root shape is a mismatch and nothing
/// is emitted.
#[verifier::loop_isolation(false)]
pub fn serialize_tabular_lines(v: &Value) -> (r: Result<Vec<u8>, StructuralError>)
    ensures
        lines_serializable(v@) ==> (r matches Ok(bytes) && bytes@ == vstd::utf8::encode_utf8(
            lines_text(v@),
        )),
        !lines_serializable(v@) ==> r == Err::<Vec<u8>, StructuralError>(
            StructuralError::ShapeMismatch,
        ),
{
    let records = match v {
        Value::Sequence(items) => items,
        _ => {
            return Err(StructuralError::ShapeMismatch);
        },
    };
    let ghost grecords = v@->Sequence_0;
    proof {
        assert(grecords =~= crate::value::values_view(records@));
    }
    let nr = records.len();
    let mut out: Vec<char> = Vec::new();
    let mut ri: usize = 0;
    while ri < nr
        invariant
            ri <= nr == records@.len(),
            grecords =~= crate::value::values_view(records@),
            out@ + lines_body(grecords, ri as int) == lines_body(grecords, 0),
        decreases nr - ri,
    {
        let ghost before = out@;
        write_json_value(&records[ri], &mut out);
        out.push('\n');
        proof {
            assert(lines_body(grecords, ri as int) == json_value_text(grecords[ri as int]) + seq![
                '\n',
            ] + lines_body(grecords, ri + 1));
            assert(out@ =~= before + (json_value_text(grecords[ri as int]) + seq!['\n']));
            assert(out@ + lines_body(grecords, ri + 1 as int) =~= before + lines_body(
                grecords,
                ri as int,
            ));
        }
        ri = ri + 1;
    }
    proof {
        assert(lines_body(grecords, nr as int) =~= Seq::<char>::empty());
        assert(out@ + lines_body(grecords, nr as int) =~= out@);
        assert(out@ =~= lines_text(v@));
    }
    Ok(crate::text::bytes_of_chars(&out))
}

// ---------------------------------------------------------------------------
// The round-trip law: the codec reads its own output back exactly.
// ---------------------------------------------------------------------------

/// A character that may legally follow a value: a delimiter of the
/// enclosing structure or whitespace.
pub open spec fn boundary_char(c: char) -> bool {
    c == ',' || c == ']' || c == '}' || is_blank_char(c)
}

/// A boundary character never extends a number token.
proof fn lemma_boundary_not_number(c: char)
    requires
        boundary_char(c),
    ensures
        !is_number_char(c),
{
}

/// The hexadecimal digit characters decode to their values.
proof fn lemma_hex_round(d: int)
    requires
        0 <= d < 16,
    ensures
        is_hex_digit(hex_char(d)),
        hex_val(hex_char(d)) == d,
{
}

/// Pins the digit scan: a run of digits followed by a non-digit stops
/// exactly there.
pub(crate) proof fn lemma_pin_scan_digits(s: Seq<char>, i: int, j: int)
    requires
        0 <= i <= j <= s.len(),
        forall|k: int| i <= k < j ==> is_ascii_digit(#[trigger] s[k]),
        j == s.len() || !is_ascii_digit(s[j]),
    ensures
        scan_digits(s, i) == j,
{
    lemma_scan_digits(s, i);
    let r = scan_digits(s, i);
    if r < j {
        assert(!is_ascii_digit(s[r]));
    }
    if r > j {
        assert(is_ascii_digit(s[j]));
    }
}

/// Pins the blank skip likewise.
proof fn lemma_pin_skip_blanks(s: Seq<char>, i: int)
    requires
        0 <= i <= s.len(),
        i == s.len() || !is_blank_char(s[i]),
    ensures
        skip_blanks(s, i) == i,
{
}

/// A whole number token placed at `i` scans identically there, when what
/// follows cannot extend it.
proof fn lemma_scan_number_shift(t: Seq<char>, s: Seq<char>, i: int)
    requires
        scan_number(t, 0) matches Ok(o) && o.0 == t.len(),
        0 <= i,
        i + t.len() <= s.len(),
        s.subrange(i, i + t.len() as int) == t,
        i + t.len() == s.len() || !is_number_char(s[i + t.len() as int]),
    ensures
        scan_number(s, i) == Ok::<(int, bool), int>(
            (i + t.len() as int, scan_number(t, 0)->Ok_0.1),
        ),
{
    let e = i + t.len() as int;
    assert forall|k: int| 0 <= k < t.len() implies s[i + k] == #[trigger] t[k] by {
        assert(s.subrange(i, i + t.len() as int)[k] == s[i + k]);
    }
    let d0: int = if t[0] == '-' {
        1
    } else {
        0
    };
    assert(0 <= d0 < t.len() && is_ascii_digit(t[d0]));
    assert(s[i + d0] == t[d0]);
    lemma_scan_digits(t, d0);
    let int_end0: int = if t[d0] == '0' {
        d0 + 1
    } else {
        scan_digits(t, d0)
    };
    if t[d0] != '0' {
        assert forall|k: int| i + d0 <= k < i + int_end0 implies is_ascii_digit(
            #[trigger] s[k],
        ) by {
            assert(s[k] == t[k - i]);
        }
        assert(i + int_end0 == s.len() || !is_ascii_digit(s[i + int_end0])) by {
            if int_end0 < t.len() {
                assert(s[i + int_end0] == t[int_end0]);
            }
        }
        lemma_pin_scan_digits(s, i + d0, i + int_end0);
    }
    assert(int_end0 <= t.len());
    let frac_end0: int = if int_end0 < t.len() && t[int_end0] == '.' {
        scan_digits(t, int_end0 + 1)
    } else {
        int_end0
    };
    if int_end0 < t.len() && t[int_end0] == '.' {
        lemma_scan_digits(t, int_end0 + 1);
        assert forall|k: int| i + int_end0 + 1 <= k < i + frac_end0 implies is_ascii_digit(
            #[trigger] s[k],
        ) by {
            assert(s[k] == t[k - i]);
        }
        assert(i + frac_end0 == s.len() || !is_ascii_digit(s[i + frac_end0])) by {
            if frac_end0 < t.len() {
                assert(s[i + frac_end0] == t[frac_end0]);
            }
        }
        lemma_pin_scan_digits(s, i + int_end0 + 1, i + frac_end0);
    }
    if frac_end0 < t.len() && (t[frac_end0] == 'e' || t[frac_end0] == 'E') {
        let es0: int = if frac_end0 + 1 < t.len() && (t[frac_end0 + 1] == '+' || t[frac_end0 + 1]
            == '-') {
            frac_end0 + 2
        } else {
            frac_end0 + 1
        };
        lemma_scan_digits(t, es0);
        let ee0 = scan_digits(t, es0);
        assert forall|k: int| i + es0 <= k < i + ee0 implies is_ascii_digit(#[trigger] s[k]) by {
            assert(s[k] == t[k - i]);
        }
        assert(i + ee0 == s.len() || !is_ascii_digit(s[i + ee0])) by {
            if ee0 < t.len() {
                assert(s[i + ee0] == t[ee0]);
            }
        }
        lemma_pin_scan_digits(s, i + es0, i + ee0);
    }
}

/// The first character of a well-formed value's encoding is never a blank
/// or a closing delimiter.
proof fn lemma_json_text_first(m: ValModel)
    requires
        crate::value::model_wf(m),
    ensures
        json_value_text(m).len() >= 1,
        !is_blank_char(json_value_text(m)[0]),
        json_value_text(m)[0] != ']',
        json_value_text(m)[0] != '}',
        json_value_text(m)[0] != ',',
        json_value_text(m)[0] != ':',
{
    let t = json_value_text(m);
    match m {
        ValModel::Integer(i) => {
            if i >= 0 {
                crate::scalar::lemma_dec_digits(i);
                assert(t[0] == crate::scalar::dec_digits(i)[0]);
                assert(is_ascii_digit(t[0]));
            } else {
                crate::scalar::lemma_dec_digits(-i);
                assert(t == seq!['-'] + crate::scalar::dec_digits(-i));
                assert(t[0] == '-');
            }
        },
        ValModel::Float(ft) => {
            let d0: int = if ft[0] == '-' {
                1
            } else {
                0
            };
            assert(0 <= d0 < ft.len() && is_ascii_digit(ft[d0]));
            if ft[0] != '-' {
                assert(is_ascii_digit(ft[0]));
            }
        },
        ValModel::Text(str) => {
            assert(t[0] == '"');
        },
        ValModel::Sequence(items) => {
            assert(t[0] == '[') by {
                assert(t == seq!['['] + json_items_text(items, 0) + seq![']']);
            }
        },
        ValModel::Mapping(entries) => {
            assert(t[0] == '{') by {
                assert(t == seq!['{'] + json_entries_text(entries, 0) + seq!['}']);
            }
        },
        _ => {
        },
    }
}

/// Reading back an escaped text consumes exactly the escape image and the
/// closing quote, restoring the text.
#[verifier::rlimit(100)]
#[verifier::spinoff_prover]
proof fn lemma_parse_string_escape(text: Seq<char>, s: Seq<char>, i: int, acc: Seq<char>)
    requires
        0 <= i,
        i + json_escape(text).len() + 1 <= s.len(),
        s.subrange(i, i + json_escape(text).len() as int) == json_escape(text),
        s[i + json_escape(text).len() as int] == '"',
    ensures
        parse_string_rec(s, i, acc) == Ok::<(Seq<char>, int), int>(
            (acc + text, i + json_escape(text).len() + 1),
        ),
    decreases text.len(),
{
    let e = json_escape(text);
    assert forall|k: int| 0 <= k < e.len() implies s[i + k] == #[trigger] e[k] by {
        assert(s.subrange(i, i + e.len() as int)[k] == s[i + k]);
    }
    if text.len() == 0 {
        assert(e =~= Seq::<char>::empty());
        assert(s[i] == '"');
        assert(acc + text =~= acc);
    } else {
        let c = text[0];
        let h = json_escape_char(c);
        let rest = json_escape(text.drop_first());
        assert(e == h + rest);
        assert(forall|k: int| 0 <= k < h.len() ==> e[k] == #[trigger] h[k]);
        assert(forall|k: int| 0 <= k < rest.len() ==> e[h.len() + k] == #[trigger] rest[k]);
        let inext = i + h.len() as int;
        assert(s.subrange(inext, inext + rest.len() as int) =~= rest);
        assert(s[inext + rest.len() as int] == '"');
        if c == '"' || c == '\\' {
            assert(s[i] == '\\' && s[i + 1] == c);
            lemma_parse_string_escape(text.drop_first(), s, i + 2, acc.push(c));
            assert(acc.push(c) + text.drop_first() =~= acc + text);
        } else if c == '\u{8}' {
            assert(s[i] == '\\' && s[i + 1] == 'b');
            lemma_parse_string_escape(text.drop_first(), s, i + 2, acc.push(c));
            assert(acc.push(c) + text.drop_first() =~= acc + text);
        } else if c == '\t' {
            assert(s[i] == '\\' && s[i + 1] == 't');
            lemma_parse_string_escape(text.drop_first(), s, i + 2, acc.push(c));
            assert(acc.push(c) + text.drop_first() =~= acc + text);
        } else if c == '\n' {
            assert(s[i] == '\\' && s[i + 1] == 'n');
            lemma_parse_string_escape(text.drop_first(), s, i + 2, acc.push(c));
            assert(acc.push(c) + text.drop_first() =~= acc + text);
        } else if c == '\u{c}' {
            assert(s[i] == '\\' && s[i + 1] == 'f');
            lemma_parse_string_escape(text.drop_first(), s, i + 2, acc.push(c));
            assert(acc.push(c) + text.drop_first() =~= acc + text);
        } else if c == '\r' {
            assert(s[i] == '\\' && s[i + 1] == 'r');
            lemma_parse_string_escape(text.drop_first(), s, i + 2, acc.push(c));
            assert(acc.push(c) + text.drop_first() =~= acc + text);
        } else if (c as u32) < 32 {
            let cv = c as u32 as int;
            assert(h == seq!['\\', 'u', '0', '0', hex_char(cv / 16), hex_char(cv % 16)]);
            assert(s[i] == '\\' && s[i + 1] == 'u');
            assert(s[i + 2] == '0' && s[i + 3] == '0');
            assert(s[i + 4] == hex_char(cv / 16) && s[i + 5] == hex_char(cv % 16));
            lemma_hex_round(cv / 16);
            lemma_hex_round(cv % 16);
            assert(hex_val('0') == 0);
            assert(four_hex_at(s, i + 2));
            assert(hex4_val(s, i + 2) == cv);
            assert(!(0xD800 <= cv && cv < 0xDC00) && !(0xDC00 <= cv && cv < 0xE000));
            vstd::utf8::char_u32_cast(c, c as u32);
            assert((cv as char) == c);
            lemma_parse_string_escape(text.drop_first(), s, i + 6, acc.push(c));
            assert(acc.push(c) + text.drop_first() =~= acc + text);
        } else {
            assert(h == seq![c]);
            assert(e[0] == h[0]);
            assert(s[i] == e[0]);
            assert(s[i] == c);
            assert(c != '"' && c != '\\');
            lemma_parse_string_escape(text.drop_first(), s, i + 1, acc.push(c));
            assert(acc.push(c) + text.drop_first() =~= acc + text);
        }
    }
}

/// The canonical decimal text of an integer scans as one bare-digit token.
proof fn lemma_int_text_scan(iv: int)
    requires
        i64::MIN <= iv <= i64::MAX,
    ensures
        scan_number(int_text(iv), 0) == Ok::<(int, bool), int>((int_text(iv).len() as int, true)),
        is_i64_text(int_text(iv)),
        i64_text_val(int_text(iv)) == iv,
{
    let t = int_text(iv);
    let mag: int = if iv < 0 {
        -iv
    } else {
        iv
    };
    crate::scalar::lemma_dec_digits(mag);
    let d0: int = if iv < 0 {
        1
    } else {
        0
    };
    assert(t[d0] == crate::scalar::dec_digits(mag)[0]) by {
        if iv < 0 {
            assert(t == seq!['-'] + crate::scalar::dec_digits(mag));
        }
    }
    assert forall|k: int| d0 <= k < t.len() implies is_ascii_digit(#[trigger] t[k]) by {
        if iv < 0 {
            assert(t[k] == crate::scalar::dec_digits(mag)[k - 1]);
        } else {
            assert(t[k] == crate::scalar::dec_digits(mag)[k]);
        }
    }
    assert(t[0] == '-' <==> iv < 0) by {
        if iv >= 0 {
            assert(t[0] == crate::scalar::dec_digits(mag)[0]);
            assert(is_ascii_digit(t[0]));
        }
    }
    if t[d0] == '0' {
        assert(mag == 0);
        assert(t.len() == d0 + 1) by {
            assert(crate::scalar::dec_digits(0) == seq![crate::scalar::digit_char(0)]);
        }
    } else {
        lemma_pin_scan_digits(t, d0, t.len() as int);
    }
    // The value reads back.
    let ds = crate::scalar::i64_digits(t);
    if iv < 0 {
        assert(ds =~= crate::scalar::dec_digits(mag));
    } else {
        assert(t[0] != '+' && t[0] != '-');
        assert(ds == t);
        assert(ds =~= crate::scalar::dec_digits(mag));
    }
    assert(crate::scalar::digits_val(ds) == mag);
}

/// `model_map_insert` of a fresh key appends.
proof fn lemma_take_insert_push(
    entries: Seq<(Seq<char>, ValModel)>,
    k: int,
    v: ValModel,
)
    requires
        0 <= k < entries.len(),
        crate::value::model_keys_unique(entries),
    ensures
        crate::value::model_map_insert(entries.take(k), entries[k].0, v) == entries.take(k).push(
            (entries[k].0, v),
        ),
{
    let acc = entries.take(k);
    assert(!crate::value::model_map_has_key(acc, entries[k].0)) by {
        if crate::value::model_map_has_key(acc, entries[k].0) {
            let j = choose|j: int| 0 <= j < acc.len() && acc[j].0 == entries[k].0;
            assert(acc[j].0 == entries[j].0);
        }
    }
}

/// Reading back the encoding of a well-formed value consumes exactly its
/// text and restores the value, whenever what follows cannot extend it.
#[verifier::rlimit(100)]
#[verifier::spinoff_prover]
proof fn lemma_json_value_rt(m: ValModel, s: Seq<char>, i: int)
    requires
        crate::value::model_wf(m),
        0 <= i,
        i + json_value_text(m).len() <= s.len(),
        s.subrange(i, i + json_value_text(m).len() as int) == json_value_text(m),
        i + json_value_text(m).len() == s.len() || boundary_char(
            s[i + json_value_text(m).len() as int],
        ),
    ensures
        parse_json_value(s, i) == Ok::<(ValModel, int), int>(
            (m, i + json_value_text(m).len() as int),
        ),
    decreases m, 2int, 0int,
{
    let t = json_value_text(m);
    let e = i + t.len() as int;
    assert forall|k: int| 0 <= k < t.len() implies s[i + k] == #[trigger] t[k] by {
        assert(s.subrange(i, i + t.len() as int)[k] == s[i + k]);
    }
    lemma_json_text_first(m);
    assert(s[i] == t[0]);
    match m {
        ValModel::Null => {
            assert(t == seq!['n', 'u', 'l', 'l']);
            assert(s[i] == 'n' && s[i + 1] == 'u' && s[i + 2] == 'l' && s[i + 3] == 'l');
        },
        ValModel::Boolean(b) => {
            if b {
                assert(t == seq!['t', 'r', 'u', 'e']);
                assert(s[i] == 't' && s[i + 1] == 'r' && s[i + 2] == 'u' && s[i + 3] == 'e');
            } else {
                assert(t == seq!['f', 'a', 'l', 's', 'e']);
                assert(s[i] == 'f' && s[i + 1] == 'a' && s[i + 2] == 'l' && s[i + 3] == 's' && s[i
                    + 4] == 'e');
            }
        },
        ValModel::Integer(iv) => {
            lemma_int_text_scan(iv);
            if e < s.len() {
                lemma_boundary_not_number(s[e]);
            }
            lemma_scan_number_shift(t, s, i);
            assert(s[i] == '-' || is_ascii_digit(s[i]));
            assert(s[i] != 'n' && s[i] != 't' && s[i] != 'f' && s[i] != '"' && s[i] != '[' && s[i]
                != '{') by {
                if s[i] != '-' {
                    assert(is_ascii_digit(s[i]));
                }
            }
            let tok = s.subrange(i, e);
            assert(tok =~= t);
        },
        ValModel::Float(ft) => {
            if e < s.len() {
                lemma_boundary_not_number(s[e]);
            }
            lemma_scan_number_shift(ft, s, i);
            assert(s[i] == '-' || is_ascii_digit(s[i])) by {
                let d0: int = if ft[0] == '-' {
                    1
                } else {
                    0
                };
                if ft[0] != '-' {
                    assert(is_ascii_digit(ft[0]));
                }
            }
            assert(s[i] != 'n' && s[i] != 't' && s[i] != 'f' && s[i] != '"' && s[i] != '[' && s[i]
                != '{') by {
                if s[i] != '-' {
                    assert(is_ascii_digit(s[i]));
                }
            }
            let tok = s.subrange(i, e);
            assert(tok =~= ft);
            assert(!is_i64_text(tok));
        },
        ValModel::Text(str) => {
            let esc = json_escape(str);
            assert(t == seq!['"'] + esc + seq!['"']);
            assert(s[i] == '"');
            assert(s.subrange(i + 1, i + 1 + esc.len() as int) =~= esc) by {
                assert(forall|k: int|
                    0 <= k < esc.len() ==> t[1 + k] == #[trigger] esc[k]);
                assert forall|k: int|
                    0 <= k < esc.len() implies s.subrange(i + 1, i + 1 + esc.len() as int)[k]
                    == #[trigger] esc[k] by {
                    assert(s.subrange(i + 1, i + 1 + esc.len() as int)[k] == s[i + 1 + k]);
                    assert(s[i + 1 + k] == t[1 + k]);
                }
            }
            assert(s[i + 1 + esc.len()] == '"') by {
                assert(t[1 + esc.len() as int] == '"');
            }
            lemma_parse_string_escape(str, s, i + 1, Seq::empty());
            assert(Seq::<char>::empty() + str =~= str);
        },
        ValModel::Sequence(items) => {
            let body = json_items_text(items, 0);
            assert(t == seq!['['] + body + seq![']']);
            assert(s[i] == '[');
            assert(forall|k: int| 0 <= k < body.len() ==> t[1 + k] == #[trigger] body[k]);
            assert(s[e - 1] == ']') by {
                assert(t[t.len() - 1] == ']');
            }
            if items.len() == 0 {
                assert(body =~= Seq::<char>::empty());
                assert(s[i + 1] == ']');
                lemma_pin_skip_blanks(s, i + 1);
                assert(m == ValModel::Sequence(Seq::<ValModel>::empty())) by {
                    assert(items =~= Seq::<ValModel>::empty());
                }
            } else {
                let t0 = json_value_text(items[0]);
                assert(crate::value::model_wf(items[0]));
                lemma_json_text_first(items[0]);
                lemma_json_items_head(items, 0);
                assert(body[0] == t0[0]);
                assert(s[i + 1] == body[0]);
                assert(!is_blank_char(s[i + 1]) && s[i + 1] != ']');
                lemma_pin_skip_blanks(s, i + 1);
                assert(s.subrange(i + 1, i + 1 + body.len() as int) =~= body) by {
                    assert forall|k: int|
                        0 <= k < body.len() implies s.subrange(i + 1, i + 1 + body.len() as int)[k]
                        == #[trigger] body[k] by {
                        assert(s.subrange(i + 1, i + 1 + body.len() as int)[k] == s[i + 1 + k]);
                        assert(s[i + 1 + k] == t[1 + k]);
                    }
                }
                assert(items.take(0) =~= Seq::<ValModel>::empty());
                lemma_json_elems_rt(items, 0, s, i + 1);
            }
        },
        ValModel::Mapping(entries) => {
            let body = json_entries_text(entries, 0);
            assert(t == seq!['{'] + body + seq!['}']);
            assert(s[i] == '{');
            assert(forall|k: int| 0 <= k < body.len() ==> t[1 + k] == #[trigger] body[k]);
            assert(s[e - 1] == '}') by {
                assert(t[t.len() - 1] == '}');
            }
            if entries.len() == 0 {
                assert(body =~= Seq::<char>::empty());
                assert(s[i + 1] == '}');
                lemma_pin_skip_blanks(s, i + 1);
                assert(m == ValModel::Mapping(Seq::<(Seq<char>, ValModel)>::empty())) by {
                    assert(entries =~= Seq::<(Seq<char>, ValModel)>::empty());
                }
            } else {
                assert(body[0] == '"') by {
                    lemma_json_entries_head(entries, 0);
                    assert(json_string_text(entries[0].0)[0] == '"');
                }
                assert(s[i + 1] == body[0]);
                lemma_pin_skip_blanks(s, i + 1);
                assert(s.subrange(i + 1, i + 1 + body.len() as int) =~= body) by {
                    assert forall|k: int|
                        0 <= k < body.len() implies s.subrange(i + 1, i + 1 + body.len() as int)[k]
                        == #[trigger] body[k] by {
                        assert(s.subrange(i + 1, i + 1 + body.len() as int)[k] == s[i + 1 + k]);
                        assert(s[i + 1 + k] == t[1 + k]);
                    }
                }
                assert(entries.take(0) =~= Seq::<(Seq<char>, ValModel)>::empty());
                lemma_json_members_rt(entries, 0, s, i + 1);
            }
        },
    }
}

/// The items' rendering from `k` starts with item `k`'s text.
proof fn lemma_json_items_head(items: Seq<ValModel>, k: int)
    requires
        0 <= k < items.len(),
    ensures
        ({
            let t0 = json_value_text(items[k]);
            let body = json_items_text(items, k);
            &&& body.len() >= t0.len()
            &&& (forall|x: int| 0 <= x < t0.len() ==> body[x] == #[trigger] t0[x])
            &&& (k < items.len() - 1 ==> body.len() > t0.len() && body[t0.len() as int] == ',')
        }),
{
    let t0 = json_value_text(items[k]);
    let body = json_items_text(items, k);
    if k == items.len() - 1 {
        assert(body == t0);
    } else {
        assert(body == t0 + seq![','] + json_items_text(items, k + 1));
        assert(forall|x: int| 0 <= x < t0.len() ==> body[x] == #[trigger] t0[x]);
        assert(body[t0.len() as int] == ',');
    }
}

/// The entries' rendering from `k` starts with entry `k`'s key string.
proof fn lemma_json_entries_head(entries: Seq<(Seq<char>, ValModel)>, k: int)
    requires
        0 <= k < entries.len(),
    ensures
        ({
            let ks = json_string_text(entries[k].0);
            let t0 = json_value_text(entries[k].1);
            let body = json_entries_text(entries, k);
            &&& body.len() >= ks.len() + 1 + t0.len()
            &&& (forall|x: int| 0 <= x < ks.len() ==> body[x] == #[trigger] ks[x])
            &&& body[ks.len() as int] == ':'
            &&& (forall|x: int|
                0 <= x < t0.len() ==> body[ks.len() + 1 + x] == #[trigger] t0[x])
            &&& (k < entries.len() - 1 ==> body.len() > ks.len() + 1 + t0.len() && body[ks.len()
                + 1 + t0.len() as int] == ',')
        }),
{
    let ks = json_string_text(entries[k].0);
    let t0 = json_value_text(entries[k].1);
    let body = json_entries_text(entries, k);
    if k == entries.len() - 1 {
        assert(body == ks + seq![':'] + t0);
        let p1 = ks + seq![':'];
        assert(body == p1 + t0);
        assert(forall|x: int| 0 <= x < ks.len() ==> body[x] == #[trigger] ks[x]);
        assert(body[ks.len() as int] == ':');
        assert(forall|x: int| 0 <= x < t0.len() ==> body[ks.len() + 1 + x] == #[trigger] t0[x]);
    } else {
        assert(body == ks + seq![':'] + t0 + seq![','] + json_entries_text(entries, k + 1));
        let p1 = ks + seq![':'];
        let p2 = p1 + t0;
        let p3 = p2 + seq![','];
        assert(body == p3 + json_entries_text(entries, k + 1));
        assert(forall|x: int| 0 <= x < ks.len() ==> body[x] == #[trigger] ks[x]);
        assert(body[ks.len() as int] == ':');
        assert(forall|x: int| 0 <= x < t0.len() ==> body[ks.len() + 1 + x] == #[trigger] t0[x]);
        assert(body[ks.len() + 1 + t0.len() as int] == ',');
    }
}

/// Reading back the remaining items and the closing bracket restores the
/// sequence.
#[verifier::rlimit(100)]
#[verifier::spinoff_prover]
proof fn lemma_json_elems_rt(items: Seq<ValModel>, k: int, s: Seq<char>, i: int)
    requires
        0 <= k < items.len(),
        forall|x: int| 0 <= x < items.len() ==> crate::value::model_wf(#[trigger] items[x]),
        0 <= i,
        i + json_items_text(items, k).len() + 1 <= s.len(),
        s.subrange(i, i + json_items_text(items, k).len() as int) == json_items_text(items, k),
        s[i + json_items_text(items, k).len() as int] == ']',
    ensures
        parse_json_elems(s, i, items.take(k)) == Ok::<(ValModel, int), int>(
            (ValModel::Sequence(items), i + json_items_text(items, k).len() + 1),
        ),
    decreases items, items.len() - k, 1int,
{
    let body = json_items_text(items, k);
    let t0 = json_value_text(items[k]);
    assert forall|x: int| 0 <= x < body.len() implies s[i + x] == #[trigger] body[x] by {
        assert(s.subrange(i, i + body.len() as int)[x] == s[i + x]);
    }
    lemma_json_items_head(items, k);
    lemma_json_text_first(items[k]);
    assert(s[i] == t0[0]);
    lemma_pin_skip_blanks(s, i);
    // The item's own text, then its boundary.
    assert(s.subrange(i, i + t0.len() as int) =~= t0);
    assert(i + t0.len() == s.len() || boundary_char(s[i + t0.len() as int])) by {
        if k < items.len() - 1 {
            assert(s[i + t0.len() as int] == ',');
        } else {
            assert(body == t0);
            assert(s[i + t0.len() as int] == ']');
        }
    }
    lemma_json_value_rt(items[k], s, i);
    let after = i + t0.len() as int;
    if k == items.len() - 1 {
        assert(body == t0);
        assert(s[after] == ']');
        lemma_pin_skip_blanks(s, after);
        assert(items.take(k).push(items[k]) =~= items);
    } else {
        assert(s[after] == ',');
        lemma_pin_skip_blanks(s, after);
        let rest = json_items_text(items, k + 1);
        assert(body == t0 + seq![','] + rest);
        assert forall|x: int| 0 <= x < rest.len() implies s[after + 1 + x] == #[trigger] rest[x]
            by {
            assert(body[t0.len() + 1 + x] == rest[x]) by {
                let p1 = t0 + seq![','];
                assert(body == p1 + rest);
            }
        }
        assert(s.subrange(after + 1, after + 1 + rest.len() as int) =~= rest);
        assert(s[after + 1 + rest.len()] == ']') by {
            assert(after + 1 + rest.len() == i + body.len());
        }
        assert(items.take(k).push(items[k]) =~= items.take(k + 1));
        lemma_json_elems_rt(items, k + 1, s, after + 1);
    }
}

/// Reading back the remaining members and the closing brace restores the
/// map.
#[verifier::rlimit(100)]
#[verifier::spinoff_prover]
proof fn lemma_json_members_rt(entries: Seq<(Seq<char>, ValModel)>, k: int, s: Seq<char>, i: int)
    requires
        0 <= k < entries.len(),
        crate::value::model_keys_unique(entries),
        forall|x: int|
            0 <= x < entries.len() ==> crate::value::model_wf(#[trigger] entries[x].1),
        0 <= i,
        i + json_entries_text(entries, k).len() + 1 <= s.len(),
        s.subrange(i, i + json_entries_text(entries, k).len() as int) == json_entries_text(
            entries,
            k,
        ),
        s[i + json_entries_text(entries, k).len() as int] == '}',
    ensures
        parse_json_members(s, i, entries.take(k)) == Ok::<(ValModel, int), int>(
            (ValModel::Mapping(entries), i + json_entries_text(entries, k).len() + 1),
        ),
    decreases entries, entries.len() - k, 1int,
{
    let body = json_entries_text(entries, k);
    let ks = json_string_text(entries[k].0);
    let t0 = json_value_text(entries[k].1);
    assert forall|x: int| 0 <= x < body.len() implies s[i + x] == #[trigger] body[x] by {
        assert(s.subrange(i, i + body.len() as int)[x] == s[i + x]);
    }
    lemma_json_entries_head(entries, k);
    assert(s[i] == '"') by {
        assert(ks[0] == '"');
    }
    lemma_pin_skip_blanks(s, i);
    // The key string.
    let esc = json_escape(entries[k].0);
    assert(ks == seq!['"'] + esc + seq!['"']);
    assert(s.subrange(i + 1, i + 1 + esc.len() as int) =~= esc) by {
        assert(forall|x: int| 0 <= x < esc.len() ==> ks[1 + x] == #[trigger] esc[x]);
        assert forall|x: int|
            0 <= x < esc.len() implies s.subrange(i + 1, i + 1 + esc.len() as int)[x]
            == #[trigger] esc[x] by {
            assert(s.subrange(i + 1, i + 1 + esc.len() as int)[x] == s[i + 1 + x]);
            assert(s[i + 1 + x] == ks[1 + x]);
        }
    }
    assert(s[i + 1 + esc.len()] == '"') by {
        assert(ks[1 + esc.len() as int] == '"');
    }
    lemma_parse_string_escape(entries[k].0, s, i + 1, Seq::empty());
    assert(Seq::<char>::empty() + entries[k].0 =~= entries[k].0);
    let after_key = i + ks.len() as int;
    // The separator, then the value.
    assert(s[after_key] == ':');
    lemma_pin_skip_blanks(s, after_key);
    let vstart = after_key + 1;
    assert forall|x: int| 0 <= x < t0.len() implies s[vstart + x] == #[trigger] t0[x] by {
        assert(body[ks.len() + 1 + x] == t0[x]);
    }
    assert(s.subrange(vstart, vstart + t0.len() as int) =~= t0);
    lemma_json_text_first(entries[k].1);
    assert(s[vstart] == t0[0]);
    lemma_pin_skip_blanks(s, vstart);
    let after = vstart + t0.len() as int;
    assert(after == s.len() || boundary_char(s[after])) by {
        if k < entries.len() - 1 {
            assert(s[after] == ',') by {
                assert(body[ks.len() + 1 + t0.len() as int] == ',');
            }
        } else {
            assert(body == ks + seq![':'] + t0);
            assert(after == i + body.len());
            assert(s[after] == '}');
        }
    }
    lemma_json_value_rt(entries[k].1, s, vstart);
    lemma_take_insert_push(entries, k, entries[k].1);
    assert(entries.take(k).push((entries[k].0, entries[k].1)) =~= entries.take(k + 1));
    assert((entries[k].0, entries[k].1) == entries[k]);
    if k == entries.len() - 1 {
        assert(s[after] == '}');
        lemma_pin_skip_blanks(s, after);
        assert(entries.take(k + 1) =~= entries);
    } else {
        assert(s[after] == ',');
        lemma_pin_skip_blanks(s, after);
        let rest = json_entries_text(entries, k + 1);
        assert(body == ks + seq![':'] + t0 + seq![','] + rest);
        assert forall|x: int| 0 <= x < rest.len() implies s[after + 1 + x] == #[trigger] rest[x]
            by {
            assert(body[ks.len() + 1 + t0.len() + 1 + x] == rest[x]) by {
                let p3 = ks + seq![':'] + t0 + seq![','];
                assert(body == p3 + rest);
            }
        }
        assert(s.subrange(after + 1, after + 1 + rest.len() as int) =~= rest);
        assert(s[after + 1 + rest.len()] == '}') by {
            assert(after + 1 + rest.len() == i + body.len());
        }
        lemma_json_members_rt(entries, k + 1, s, after + 1);
    }
}

/// The line round trip: the encoded line of any well-formed record reads
/// back as exactly that record.
pub proof fn lemma_lines_line_round_trip(m: ValModel)
    requires
        crate::value::model_wf(m),
    ensures
        parse_json_line(json_value_text(m)) == Some(m),
{
    let t = json_value_text(m);
    lemma_json_text_first(m);
    lemma_pin_skip_blanks(t, 0);
    assert(t.subrange(0, t.len() as int) =~= t);
    lemma_json_value_rt(m, t, 0);
    assert(skip_blanks(t, t.len() as int) == t.len()) by {
        lemma_pin_skip_blanks(t, t.len() as int);
    }
}

/// The document round trip: parsing the serialized form of a well-formed
/// record sequence restores it exactly.
pub proof fn lemma_lines_round_trip(m: ValModel)
    requires
        crate::value::model_wf(m),
        lines_serializable(m),
    ensures
        parse_lines_model(lines_text(m)) == Ok::<ValModel, StructuralError>(m),
{
    let records = m->Sequence_0;
    let rls = Seq::new(records.len(), |x: int| json_value_text(records[x]));
    assert forall|x: int, y: int|
        0 <= x < rls.len() && 0 <= y < rls[x].len() implies #[trigger] rls[x][y] != '\n'
        && rls[x][y] != '\r' by {
        lemma_json_text_no_breaks(records[x]);
        assert(rls[x] == json_value_text(records[x]));
    }
    lemma_lines_body_joined(records, 0);
    assert(lines_text(m).skip(0) =~= crate::rows::lines_joined(rls, 0));
    crate::rows::lemma_split_lines_join(lines_text(m), 0, Seq::empty(), rls);
    assert(crate::rows::split_lines(lines_text(m)) == Seq::<Seq<char>>::empty() + rls);
    assert(Seq::<Seq<char>>::empty() + rls =~= rls);
    assert(Seq::<ValModel>::empty() =~= records.take(0));
    lemma_lines_rt_rec(m, rls, 0, Seq::empty());
    assert(Seq::<ValModel>::empty() + records.skip(0) =~= records);
    assert(m == ValModel::Sequence(records));
}

proof fn lemma_lines_body_joined(records: Seq<ValModel>, i: int)
    requires
        0 <= i <= records.len(),
        forall|x: int| 0 <= x < records.len() ==> crate::value::model_wf(#[trigger] records[x]),
    ensures
        lines_body(records, i) == crate::rows::lines_joined(
            Seq::new(records.len(), |x: int| json_value_text(records[x])),
            i,
        ),
    decreases records.len() - i,
{
    if i < records.len() {
        lemma_lines_body_joined(records, i + 1);
    }
}

proof fn lemma_lines_rt_rec(m: ValModel, rls: Seq<Seq<char>>, i: int, acc: Seq<ValModel>)
    requires
        crate::value::model_wf(m),
        m is Sequence,
        rls == Seq::new(m->Sequence_0.len(), |x: int| json_value_text(m->Sequence_0[x])),
        0 <= i <= rls.len(),
        acc == m->Sequence_0.take(i),
    ensures
        parse_lines_rec(rls, i, acc) == Ok::<ValModel, StructuralError>(
            ValModel::Sequence(m->Sequence_0),
        ),
    decreases rls.len() - i,
{
    let records = m->Sequence_0;
    if i == rls.len() {
        assert(acc =~= records);
    } else {
        assert(crate::value::model_wf(records[i]));
        lemma_lines_line_round_trip(records[i]);
        assert(rls[i] == json_value_text(records[i]));
        assert(acc.push(records[i]) =~= records.take(i + 1));
        lemma_lines_rt_rec(m, rls, i + 1, acc.push(records[i]));
    }
}

/// A value's encoding holds no line break characters.
proof fn lemma_json_text_no_breaks(m: ValModel)
    requires
        crate::value::model_wf(m),
    ensures
        forall|y: int|
            0 <= y < json_value_text(m).len() ==> #[trigger] json_value_text(m)[y] != '\n'
                && json_value_text(m)[y] != '\r',
    decreases m, 2int, 0int,
{
    let t = json_value_text(m);
    match m {
        ValModel::Integer(iv) => {
            let mag: int = if iv < 0 {
                -iv
            } else {
                iv
            };
            crate::scalar::lemma_dec_digits(mag);
            assert forall|y: int| 0 <= y < t.len() implies #[trigger] t[y] != '\n' && t[y] != '\r'
                by {
                if iv < 0 {
                    assert(t == seq!['-'] + crate::scalar::dec_digits(mag));
                    if y > 0 {
                        assert(t[y] == crate::scalar::dec_digits(mag)[y - 1]);
                        assert(is_ascii_digit(t[y]));
                    }
                } else {
                    assert(is_ascii_digit(t[y]));
                }
            }
        },
        ValModel::Float(ft) => {
            assert forall|y: int| 0 <= y < t.len() implies #[trigger] t[y] != '\n' && t[y] != '\r'
                by {
                assert(is_ascii_digit(ft[y]) || ft[y] == '-' || ft[y] == '+' || ft[y] == '.'
                    || ft[y] == 'e');
            }
        },
        ValModel::Text(str) => {
            lemma_json_escape_no_breaks(str);
            let esc = json_escape(str);
            assert(t == seq!['"'] + esc + seq!['"']);
            assert forall|y: int| 0 <= y < t.len() implies #[trigger] t[y] != '\n' && t[y] != '\r'
                by {
                if 0 < y < 1 + esc.len() {
                    assert(t[y] == esc[y - 1]);
                }
            }
        },
        ValModel::Sequence(items) => {
            let body = json_items_text(items, 0);
            assert(t == seq!['['] + body + seq![']']);
            lemma_json_items_no_breaks(items, 0);
            assert forall|y: int| 0 <= y < t.len() implies #[trigger] t[y] != '\n' && t[y] != '\r'
                by {
                if 0 < y < 1 + body.len() {
                    assert(t[y] == body[y - 1]);
                }
            }
        },
        ValModel::Mapping(entries) => {
            let body = json_entries_text(entries, 0);
            assert(t == seq!['{'] + body + seq!['}']);
            lemma_json_entries_no_breaks(entries, 0);
            assert forall|y: int| 0 <= y < t.len() implies #[trigger] t[y] != '\n' && t[y] != '\r'
                by {
                if 0 < y < 1 + body.len() {
                    assert(t[y] == body[y - 1]);
                }
            }
        },
        _ => {
        },
    }
}

proof fn lemma_json_escape_no_breaks(str: Seq<char>)
    ensures
        forall|y: int|
            0 <= y < json_escape(str).len() ==> #[trigger] json_escape(str)[y] != '\n'
                && json_escape(str)[y] != '\r',
    decreases str.len(),
{
    if str.len() > 0 {
        lemma_json_escape_no_breaks(str.drop_first());
        let e = json_escape(str);
        let h = json_escape_char(str[0]);
        assert(e == h + json_escape(str.drop_first()));
        assert forall|y: int| 0 <= y < e.len() implies #[trigger] e[y] != '\n' && e[y] != '\r'
            by {
            if y < h.len() {
                assert(e[y] == h[y]);
            } else {
                assert(e[y] == json_escape(str.drop_first())[y - h.len()]);
            }
        }
    }
}

proof fn lemma_json_items_no_breaks(items: Seq<ValModel>, k: int)
    requires
        0 <= k <= items.len(),
        forall|x: int| 0 <= x < items.len() ==> crate::value::model_wf(#[trigger] items[x]),
    ensures
        forall|y: int|
            0 <= y < json_items_text(items, k).len() ==> #[trigger] json_items_text(items, k)[y]
                != '\n' && json_items_text(items, k)[y] != '\r',
    decreases items, items.len() - k, 1int,
{
    if k < items.len() {
        let body = json_items_text(items, k);
        let t0 = json_value_text(items[k]);
        lemma_json_text_no_breaks(items[k]);
        if k == items.len() - 1 {
            assert(body == t0);
        } else {
            lemma_json_items_no_breaks(items, k + 1);
            let rest = json_items_text(items, k + 1);
            assert(body == t0 + seq![','] + rest);
            assert forall|y: int| 0 <= y < body.len() implies #[trigger] body[y] != '\n'
                && body[y] != '\r' by {
                if y < t0.len() {
                    assert(body[y] == t0[y]);
                } else if y == t0.len() {
                    assert(body[y] == ',') by {
                        let p1 = t0 + seq![','];
                        assert(body == p1 + rest);
                    }
                } else {
                    assert(body[y] == rest[y - t0.len() - 1]) by {
                        let p1 = t0 + seq![','];
                        assert(body == p1 + rest);
                    }
                }
            }
        }
    }
}

proof fn lemma_json_entries_no_breaks(entries: Seq<(Seq<char>, ValModel)>, k: int)
    requires
        0 <= k <= entries.len(),
        forall|x: int|
            0 <= x < entries.len() ==> crate::value::model_wf(#[trigger] entries[x].1),
    ensures
        forall|y: int|
            0 <= y < json_entries_text(entries, k).len() ==> #[trigger] json_entries_text(
                entries,
                k,
            )[y] != '\n' && json_entries_text(entries, k)[y] != '\r',
    decreases entries, entries.len() - k, 1int,
{
    if k < entries.len() {
        let body = json_entries_text(entries, k);
        let ks = json_string_text(entries[k].0);
        let t0 = json_value_text(entries[k].1);
        lemma_json_text_no_breaks(entries[k].1);
        lemma_json_escape_no_breaks(entries[k].0);
        let esc = json_escape(entries[k].0);
        assert(ks == seq!['"'] + esc + seq!['"']);
        assert(forall|y: int| 0 <= y < ks.len() ==> #[trigger] ks[y] != '\n' && ks[y] != '\r')
            by {
            assert forall|y: int| 0 <= y < ks.len() implies #[trigger] ks[y] != '\n' && ks[y]
                != '\r' by {
                if 0 < y < 1 + esc.len() {
                    assert(ks[y] == esc[y - 1]);
                }
            }
        }
        let p2 = ks + seq![':'] + t0;
        assert(forall|y: int| 0 <= y < p2.len() ==> #[trigger] p2[y] != '\n' && p2[y] != '\r')
            by {
            assert forall|y: int| 0 <= y < p2.len() implies #[trigger] p2[y] != '\n' && p2[y]
                != '\r' by {
                let p1 = ks + seq![':'];
                assert(p2 == p1 + t0);
                if y < ks.len() {
                    assert(p2[y] == ks[y]);
                } else if y == ks.len() {
                    assert(p2[y] == ':');
                } else {
                    assert(p2[y] == t0[y - ks.len() - 1]);
                }
            }
        }
        if k == entries.len() - 1 {
            assert(body == p2);
        } else {
            lemma_json_entries_no_breaks(entries, k + 1);
            let rest = json_entries_text(entries, k + 1);
            assert(body == p2 + seq![','] + rest);
            assert forall|y: int| 0 <= y < body.len() implies #[trigger] body[y] != '\n'
                && body[y] != '\r' by {
                let p3 = p2 + seq![','];
                assert(body == p3 + rest);
                if y < p2.len() {
                    assert(body[y] == p2[y]);
                } else if y == p2.len() {
                    assert(body[y] == ',');
                } else {
                    assert(body[y] == rest[y - p2.len() - 1]);
                }
            }
        }
    }
}

// ---------------------------------------------------------------------------
// Executable parsing.
// ---------------------------------------------------------------------------

fn skip_blanks_exec(v: &Vec<char>, i: usize) -> (r: usize)
    requires
        i <= v@.len(),
    ensures
        r == skip_blanks(v@, i as int),
        i <= r <= v@.len(),
    decreases v@.len() - i,
{
    proof {
        lemma_skip_blanks(v@, i as int);
    }
    if i == v.len() {
        i
    } else {
        let c = v[i];
        if c == ' ' || c == '\t' || c == '\n' || c == '\r' {
            skip_blanks_exec(v, i + 1)
        } else {
            i
        }
    }
}

fn scan_digits_exec(v: &Vec<char>, i: usize) -> (r: usize)
    requires
        i <= v@.len(),
    ensures
        r == scan_digits(v@, i as int),
        i <= r <= v@.len(),
    decreases v@.len() - i,
{
    proof {
        lemma_scan_digits(v@, i as int);
    }
    if i == v.len() {
        i
    } else {
        let c = v[i] as u32;
        if 48 <= c && c <= 57 {
            scan_digits_exec(v, i + 1)
        } else {
            i
        }
    }
}

/// Scans one number token, mirroring the token grammar.
fn scan_number_exec(v: &Vec<char>, i: usize) -> (r: Result<(usize, bool), usize>)
    requires
        i <= v@.len(),
    ensures
        match r {
            Ok((end, is_int)) => scan_number(v@, i as int) == Ok::<(int, bool), int>(
                (end as int, is_int),
            ) && i < end <= v@.len(),
            Err(p) => scan_number(v@, i as int) == Err::<(int, bool), int>(p as int),
        },
{
    let n = v.len();
    let d = if i < n && v[i] == '-' {
        i + 1
    } else {
        i
    };
    if !(d < n && {
        let c = v[d] as u32;
        48 <= c && c <= 57
    }) {
        return Err(i);
    }
    let int_end = if v[d] == '0' {
        d + 1
    } else {
        scan_digits_exec(v, d)
    };
    let frac_end = if int_end < n && v[int_end] == '.' {
        let fe = scan_digits_exec(v, int_end + 1);
        if fe == int_end + 1 {
            return Err(i);
        }
        fe
    } else {
        int_end
    };
    let exp_end = if frac_end < n && (v[frac_end] == 'e' || v[frac_end] == 'E') {
        let es = if frac_end + 1 < n && (v[frac_end + 1] == '+' || v[frac_end + 1] == '-') {
            frac_end + 2
        } else {
            frac_end + 1
        };
        let ee = scan_digits_exec(v, es);
        if ee == es {
            return Err(i);
        }
        ee
    } else {
        frac_end
    };
    let is_int = frac_end == int_end && exp_end == frac_end;
    proof {
        lemma_scan_number(v@, i as int);
    }
    Ok((exp_end, is_int))
}

pub(crate) fn is_hex_digit_exec(c: char) -> (r: bool)
    ensures
        r == is_hex_digit(c),
{
    let u = c as u32;
    (48 <= u && u <= 57) || (97 <= u && u <= 102) || (65 <= u && u <= 70)
}

pub(crate) fn hex_val_exec(c: char) -> (r: u32)
    requires
        is_hex_digit(c),
    ensures
        r == hex_val(c),
        r < 16,
{
    let u = c as u32;
    if 48 <= u && u <= 57 {
        u - 48
    } else if 97 <= u && u <= 102 {
        u - 87
    } else {
        u - 55
    }
}

/// The value of the four hex digits at `i`.
fn hex4_exec(v: &Vec<char>, i: usize) -> (r: u32)
    requires
        i + 4 <= v@.len(),
        four_hex_at(v@, i as int),
    ensures
        r == hex4_val(v@, i as int),
        r < 0x10000,
{
    let n = v.len();
    let h0 = hex_val_exec(v[i]);
    let h1 = hex_val_exec(v[i + 1]);
    let h2 = hex_val_exec(v[i + 2]);
    let h3 = hex_val_exec(v[i + 3]);
    h0 * 4096 + h1 * 256 + h2 * 16 + h3
}

/// Reads the interior of an encoded string, mirroring the specification.
fn parse_string_exec(v: &Vec<char>, i: usize, acc: Vec<char>) -> (r: Result<
    (Vec<char>, usize),
    usize,
>)
    requires
        i <= v@.len(),
    ensures
        match r {
            Ok((out, j)) => parse_string_rec(v@, i as int, acc@) == Ok::<(Seq<char>, int), int>(
                (out@, j as int),
            ) && i < j <= v@.len(),
            Err(p) => parse_string_rec(v@, i as int, acc@) == Err::<(Seq<char>, int), int>(
                p as int,
            ),
        },
    decreases v@.len() - i,
{
    proof {
        lemma_parse_string_progress(v@, i as int, acc@);
    }
    let n = v.len();
    if i == n {
        return Err(n);
    }
    let c = v[i];
    if c == '"' {
        return Ok((acc, i + 1));
    }
    if c == '\\' {
        if n - i < 2 {
            return Err(i);
        }
        let e = v[i + 1];
        let simple: Option<char> = if e == '"' {
            Some('"')
        } else if e == '\\' {
            Some('\\')
        } else if e == '/' {
            Some('/')
        } else if e == 'b' {
            Some('\u{8}')
        } else if e == 'f' {
            Some('\u{c}')
        } else if e == 'n' {
            Some('\n')
        } else if e == 'r' {
            Some('\r')
        } else if e == 't' {
            Some('\t')
        } else {
            None
        };
        match simple {
            Some(ch) => {
                let mut acc2 = acc;
                acc2.push(ch);
                return parse_string_exec(v, i + 2, acc2);
            },
            None => {},
        }
        if e != 'u' {
            return Err(i);
        }
        if n - i < 6 || !(is_hex_digit_exec(v[i + 2]) && is_hex_digit_exec(v[i + 3])
            && is_hex_digit_exec(v[i + 4]) && is_hex_digit_exec(v[i + 5])) {
            proof {
                assert(!four_hex_at(v@, i + 2));
            }
            return Err(i);
        }
        let cp = hex4_exec(v, i + 2);
        if 0xD800 <= cp && cp < 0xDC00 {
            if n - i >= 12 && v[i + 6] == '\\' && v[i + 7] == 'u' && is_hex_digit_exec(v[i + 8])
                && is_hex_digit_exec(v[i + 9]) && is_hex_digit_exec(v[i + 10]) && is_hex_digit_exec(
                v[i + 11],
            ) {
                let lo = hex4_exec(v, i + 8);
                if 0xDC00 <= lo && lo < 0xE000 {
                    let combined: u32 = 0x10000 + (cp - 0xD800) * 0x400 + (lo - 0xDC00);
                    let ch = crate::text::char_from_code(combined);
                    let mut acc2 = acc;
                    acc2.push(ch);
                    return parse_string_exec(v, i + 12, acc2);
                }
                return Err(i);
            }
            proof {
                if i + 12 <= v@.len() && v@[i + 6] == '\\' && v@[i + 7] == 'u' && four_hex_at(
                    v@,
                    i + 8,
                ) {
                    assert(is_hex_digit(v@[i + 8]) && is_hex_digit(v@[i + 9]) && is_hex_digit(
                        v@[i + 10],
                    ) && is_hex_digit(v@[i + 11]));
                }
            }
            return Err(i);
        }
        if 0xDC00 <= cp && cp < 0xE000 {
            return Err(i);
        }
        let ch = crate::text::char_from_code(cp);
        let mut acc2 = acc;
        acc2.push(ch);
        return parse_string_exec(v, i + 6, acc2);
    }
    if (c as u32) < 32 {
        return Err(i);
    }
    let mut acc2 = acc;
    acc2.push(c);
    parse_string_exec(v, i + 1, acc2)
}

/// Reads one value, mirroring the specification; the result is always
/// well-formed.
#[verifier::rlimit(100)]
#[verifier::loop_isolation(false)]
fn parse_value_exec(v: &Vec<char>, i: usize) -> (r: Result<(Value, usize), usize>)
    requires
        i <= v@.len(),
    ensures
        match r {
            Ok((val, j)) => parse_json_value(v@, i as int) == Ok::<(ValModel, int), int>(
                (val@, j as int),
            ) && crate::value::model_wf(val@) && i < j <= v@.len(),
            Err(p) => parse_json_value(v@, i as int) == Err::<(ValModel, int), int>(p as int),
        },
    decreases v@.len() - i, 0int,
{
    let n = v.len();
    if i == n {
        return Err(n);
    }
    let c = v[i];
    if c == 'n' {
        if n - i >= 4 && v[i + 1] == 'u' && v[i + 2] == 'l' && v[i + 3] == 'l' {
            return Ok((Value::Null, i + 4));
        }
        return Err(i);
    }
    if c == 't' {
        if n - i >= 4 && v[i + 1] == 'r' && v[i + 2] == 'u' && v[i + 3] == 'e' {
            return Ok((Value::Boolean(true), i + 4));
        }
        return Err(i);
    }
    if c == 'f' {
        if n - i >= 5 && v[i + 1] == 'a' && v[i + 2] == 'l' && v[i + 3] == 's' && v[i + 4] == 'e' {
            return Ok((Value::Boolean(false), i + 5));
        }
        return Err(i);
    }
    if c == '"' {
        return match parse_string_exec(v, i + 1, Vec::new()) {
            Err(p) => Err(p),
            Ok((out, j)) => {
                let text = crate::text::string_of_chars(&out);
                Ok((Value::Text(text), j))
            },
        };
    }
    if c == '[' {
        let j = skip_blanks_exec(v, i + 1);
        if j < n && v[j] == ']' {
            let items: Vec<Value> = Vec::new();
            let ghost gitems: Vec<Value> = items;
            let out = Value::Sequence(items);
            proof {
                crate::value::lemma_sequence_view(gitems);
                assert(crate::value::values_view(gitems@) =~= Seq::<ValModel>::empty());
            }
            return Ok((out, j + 1));
        }
        let acc0: Vec<Value> = Vec::new();
        proof {
            assert(crate::value::values_view(acc0@) =~= Seq::<ValModel>::empty());
        }
        return parse_elems_exec(v, i + 1, acc0);
    }
    if c == '{' {
        let j = skip_blanks_exec(v, i + 1);
        if j < n && v[j] == '}' {
            let entries: Vec<(String, Value)> = Vec::new();
            let ghost gentries: Vec<(String, Value)> = entries;
            let out = Value::Mapping(entries);
            proof {
                crate::value::lemma_mapping_view(gentries);
                assert(crate::value::entries_view(gentries@) =~= Seq::<
                    (Seq<char>, ValModel),
                >::empty());
            }
            return Ok((out, j + 1));
        }
        let acc0: Vec<(String, Value)> = Vec::new();
        proof {
            assert(crate::value::entries_view(acc0@) =~= Seq::<(Seq<char>, ValModel)>::empty());
        }
        return parse_members_exec(v, i + 1, acc0);
    }
    let cu = c as u32;
    if c == '-' || (48 <= cu && cu <= 57) {
        let (end, is_int) = match scan_number_exec(v, i) {
            Err(p) => {
                return Err(p);
            },
            Ok(e) => e,
        };
        let ghost tok = v@.subrange(i as int, end as int);
        proof {
            lemma_scan_number(v@, i as int);
        }
        if is_int {
            match crate::scalar::parse_i64_range(v, i, end) {
                Some(iv) => {
                    return Ok((Value::Integer(iv), end));
                },
                None => {},
            }
        }
        proof {
            assert(!(is_int && is_i64_text(tok)));
            assert(!is_i64_text(tok));
        }
        let tokvec = crate::scalar::copy_range(v, i, end);
        let tokstr = crate::text::string_of_chars(&tokvec);
        match crate::scalar::normalize_float(tokstr.as_str()) {
            Some(t) => {
                proof {
                    assert(tok.len() >= 1);
                    assert(is_number_char(tok[0]) && is_number_char(tok[tok.len() - 1]));
                    assert(!is_blank_char(tok[0]) && !is_blank_char(tok[tok.len() - 1]));
                    assert(crate::scalar::float_text_wf(t@));
                }
                return Ok((Value::Float(t), end));
            },
            None => {
                return Err(i);
            },
        }
    }
    Err(i)
}

/// Reads the remaining elements of a non-empty array.
#[verifier::rlimit(100)]
#[verifier::loop_isolation(false)]
fn parse_elems_exec(v: &Vec<char>, i: usize, acc: Vec<Value>) -> (r: Result<
    (Value, usize),
    usize,
>)
    requires
        i <= v@.len(),
        forall|k: int|
            0 <= k < acc@.len() ==> crate::value::model_wf(#[trigger] acc@[k]@),
    ensures
        match r {
            Ok((val, j)) => parse_json_elems(v@, i as int, crate::value::values_view(acc@))
                == Ok::<(ValModel, int), int>((val@, j as int)) && crate::value::model_wf(val@)
                && i < j <= v@.len(),
            Err(p) => parse_json_elems(v@, i as int, crate::value::values_view(acc@)) == Err::<
                (ValModel, int),
                int,
            >(p as int),
        },
    decreases v@.len() - i, 1int,
{
    let ghost gacc = crate::value::values_view(acc@);
    let n = v.len();
    let j = skip_blanks_exec(v, i);
    let (val, k) = match parse_value_exec(v, j) {
        Err(p) => {
            return Err(p);
        },
        Ok(o) => o,
    };
    let l = skip_blanks_exec(v, k);
    if l == n {
        return Err(l);
    }
    let cl = v[l];
    if cl == ',' {
        let ghost accpre = acc@;
        let mut acc2 = acc;
        acc2.push(val);
        proof {
            assert(crate::value::values_view(acc2@) =~= gacc.push(val@));
            assert forall|x: int| 0 <= x < acc2@.len() implies crate::value::model_wf(
                #[trigger] acc2@[x]@,
            ) by {
                if x < accpre.len() {
                    assert(acc2@[x] == accpre[x]);
                    assert(accpre[x]@ == acc@[x]@);
                }
            }
        }
        return parse_elems_exec(v, l + 1, acc2);
    }
    if cl == ']' {
        let ghost accpre = acc@;
        let mut acc2 = acc;
        acc2.push(val);
        let ghost gacc2: Vec<Value> = acc2;
        let out = Value::Sequence(acc2);
        proof {
            crate::value::lemma_sequence_view(gacc2);
            assert(crate::value::values_view(gacc2@) =~= gacc.push(val@));
            assert forall|x: int| 0 <= x < gacc.push(val@).len() implies crate::value::model_wf(
                #[trigger] gacc.push(val@)[x],
            ) by {
                if x < gacc.len() {
                    assert(gacc[x] == crate::value::values_view(accpre)[x]);
                    assert(gacc[x] == accpre[x]@);
                }
            }
            assert(crate::value::model_wf(out@));
        }
        return Ok((out, l + 1));
    }
    Err(l)
}

/// Reads the remaining members of a non-empty object.
#[verifier::rlimit(100)]
#[verifier::loop_isolation(false)]
fn parse_members_exec(v: &Vec<char>, i: usize, acc: Vec<(String, Value)>) -> (r: Result<
    (Value, usize),
    usize,
>)
    requires
        i <= v@.len(),
        crate::value::model_keys_unique(crate::value::entries_view(acc@)),
        forall|k: int|
            0 <= k < acc@.len() ==> crate::value::model_wf(
                #[trigger] crate::value::entries_view(acc@)[k].1,
            ),
    ensures
        match r {
            Ok((val, j)) => parse_json_members(v@, i as int, crate::value::entries_view(acc@))
                == Ok::<(ValModel, int), int>((val@, j as int)) && crate::value::model_wf(val@)
                && i < j <= v@.len(),
            Err(p) => parse_json_members(v@, i as int, crate::value::entries_view(acc@)) == Err::<
                (ValModel, int),
                int,
            >(p as int),
        },
    decreases v@.len() - i, 1int,
{
    let ghost gacc = crate::value::entries_view(acc@);
    let n = v.len();
    let j = skip_blanks_exec(v, i);
    if j == n || !(v[j] == '"') {
        return Err(j);
    }
    let (keychars, k) = match parse_string_exec(v, j + 1, Vec::new()) {
        Err(p) => {
            return Err(p);
        },
        Ok(o) => o,
    };
    let l = skip_blanks_exec(v, k);
    if l == n || !(v[l] == ':') {
        return Err(l);
    }
    let m = skip_blanks_exec(v, l + 1);
    let (val, p) = match parse_value_exec(v, m) {
        Err(p) => {
            return Err(p);
        },
        Ok(o) => o,
    };
    let key = crate::text::string_of_chars(&keychars);
    let ghost gkey = key@;
    let ghost gval = val@;
    let mut acc2 = acc;
    crate::value::map_insert(&mut acc2, key, val);
    proof {
        crate::value::lemma_map_insert_wf(gacc, gkey, gval);
    }
    let q = skip_blanks_exec(v, p);
    if q == n {
        return Err(q);
    }
    let cq = v[q];
    if cq == ',' {
        return parse_members_exec(v, q + 1, acc2);
    }
    if cq == '}' {
        let ghost gacc2: Vec<(String, Value)> = acc2;
        let out = Value::Mapping(acc2);
        proof {
            crate::value::lemma_mapping_view(gacc2);
        }
        return Ok((out, q + 1));
    }
    Err(q)
}

/// Reads one line as one self-contained value.
fn parse_line_exec(line: &Vec<char>) -> (r: Option<Value>)
    ensures
        match r {
            Some(val) => parse_json_line(line@) == Some(val@) && crate::value::model_wf(val@),
            None => parse_json_line(line@) is None,
        },
{
    let j = skip_blanks_exec(line, 0);
    match parse_value_exec(line, j) {
        Err(_) => None,
        Ok((val, k)) => {
            let l = skip_blanks_exec(line, k);
            if l == line.len() {
                Some(val)
            } else {
                None
            }
        },
    }
}

/// Line-delimited parse of a byte stream: each line is one self-contained
/// encoded record, read independently; an encoding fault or a malformed
/// line fails the whole conversion with the line's index, and no partial
/// record list is returned.
#[verifier::loop_isolation(false)]
pub fn parse_tabular_lines(input: &[u8]) -> (r: Result<Value, StructuralError>)
    ensures
        match r {
            Ok(v) => lines_parse_result(input@) == Ok::<ValModel, StructuralError>(v@)
                && crate::value::model_wf(v@),
            Err(e) => lines_parse_result(input@) == Err::<ValModel, StructuralError>(e),
        },
{
    let s = match crate::text::str_of_bytes(input) {
        Some(s) => s,
        None => {
            return Err(StructuralError::Encoding);
        },
    };
    let chars = crate::text::chars_of_str(s);
    let lines = crate::rows::split_text_lines(&chars);
    let ghost glines = crate::rows::split_lines(chars@);
    let nl = lines.len();
    let mut out: Vec<Value> = Vec::new();
    let ghost mut gacc = Seq::<ValModel>::empty();
    let mut li: usize = 0;
    while li < nl
        invariant
            li <= nl == glines.len(),
            out@.len() == li,
            parse_lines_rec(glines, li as int, gacc) == parse_lines_rec(glines, 0, Seq::empty()),
            gacc =~= crate::value::values_view(out@),
            forall|i: int| 0 <= i < out@.len() ==> crate::value::model_wf(#[trigger] out@[i]@),
        decreases nl - li,
    {
        let rec = match parse_line_exec(&lines[li]) {
            Some(val) => val,
            None => {
                return Err(StructuralError::Malformed(li));
            },
        };
        let ghost gaccpre = gacc;
        proof {
            gacc = gacc.push(rec@);
        }
        out.push(rec);
        proof {
            assert(gacc =~= crate::value::values_view(out@));
            assert(parse_lines_rec(glines, li + 1 as int, gacc) == parse_lines_rec(
                glines,
                li as int,
                gaccpre,
            ));
        }
        li = li + 1;
    }
    let ghost gout: Vec<Value> = out;
    let res = Value::Sequence(out);
    proof {
        crate::value::lemma_sequence_view(gout);
        assert(crate::value::values_view(gout@) =~= gacc);
        assert(parse_lines_rec(glines, nl as int, gacc) == Ok::<ValModel, StructuralError>(
            ValModel::Sequence(gacc),
        ));
        assert forall|i: int| 0 <= i < gacc.len() implies crate::value::model_wf(
            #[trigger] gacc[i],
        ) by {
            assert(gacc[i] == crate::value::values_view(gout@)[i]);
            assert(gacc[i] == gout@[i]@);
        }
        assert(crate::value::model_wf(res@));
    }
    Ok(res)
}

} // verus!
