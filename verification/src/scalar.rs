use vstd::prelude::*;

verus! {

use crate::value::{ValModel, Value};

/// ASCII decimal digit.
pub open spec fn is_ascii_digit(c: char) -> bool {
    48 <= c as u32 <= 57
}

/// Numeric value of an ASCII digit character.
pub open spec fn digit_val(c: char) -> int {
    c as u32 - 48
}

/// The digit character for a value below ten.
pub open spec fn digit_char(d: int) -> char {
    if d == 0 {
        '0'
    } else if d == 1 {
        '1'
    } else if d == 2 {
        '2'
    } else if d == 3 {
        '3'
    } else if d == 4 {
        '4'
    } else if d == 5 {
        '5'
    } else if d == 6 {
        '6'
    } else if d == 7 {
        '7'
    } else if d == 8 {
        '8'
    } else {
        '9'
    }
}

pub open spec fn all_digits(s: Seq<char>) -> bool {
    forall|i: int| 0 <= i < s.len() ==> is_ascii_digit(#[trigger] s[i])
}

/// The number denoted by a digit string, most significant digit first.
pub open spec fn digits_val(s: Seq<char>) -> int
    decreases s.len(),
{
    if s.len() == 0 {
        0
    } else {
        digits_val(s.drop_last()) * 10 + digit_val(s.last())
    }
}

/// The canonical decimal digit string of a non-negative number.
pub open spec fn dec_digits(n: int) -> Seq<char>
    decreases n,
{
    if n < 10 {
        seq![digit_char(n)]
    } else {
        dec_digits(n / 10).push(digit_char(n % 10))
    }
}

/// The canonical decimal text of an integer, with a leading minus sign when
/// negative.
pub open spec fn int_text(i: int) -> Seq<char> {
    if i < 0 {
        seq!['-'] + dec_digits(-i)
    } else {
        dec_digits(i)
    }
}

/// Splitting a digit string multiplies the head's value by a power of ten.
pub proof fn lemma_digits_val_append(p: Seq<char>, rest: Seq<char>)
    ensures
        digits_val(p + rest) == digits_val(p) * pow10(rest.len() as int) + digits_val(rest),
    decreases rest.len(),
{
    if rest.len() == 0 {
        assert(p + rest =~= p);
        assert(pow10(0) == 1);
    } else {
        lemma_digits_val_append(p, rest.drop_last());
        assert((p + rest).drop_last() =~= p + rest.drop_last());
        assert((p + rest).last() == rest.last());
        assert(digits_val(p + rest) == (digits_val(p) * pow10(rest.len() - 1) + digits_val(
            rest.drop_last(),
        )) * 10 + digit_val(rest.last()));
        assert(pow10(rest.len() as int) == pow10(rest.len() - 1) * 10);
        assert((digits_val(p) * pow10(rest.len() - 1)) * 10 == digits_val(p) * pow10(
            rest.len() as int,
        )) by (nonlinear_arith)
            requires
                pow10(rest.len() as int) == pow10(rest.len() - 1) * 10,
        ;
    }
}

pub open spec fn pow10(n: int) -> int
    decreases n,
{
    if n <= 0 {
        1
    } else {
        pow10(n - 1) * 10
    }
}

/// Digit strings denote non-negative numbers, and each digit bounds the whole.
pub proof fn lemma_digits_val_bounds(s: Seq<char>)
    requires
        all_digits(s),
    ensures
        0 <= digits_val(s),
        s.len() > 0 ==> digits_val(s) >= digits_val(s.drop_last()),
    decreases s.len(),
{
    if s.len() > 0 {
        lemma_digits_val_bounds(s.drop_last());
        assert(is_ascii_digit(s.last()));
        assert(forall|i: int| 0 <= i < s.drop_last().len() ==> s.drop_last()[i] == s[i]);
        assert(digits_val(s.drop_last()) * 10 >= digits_val(s.drop_last())) by (nonlinear_arith)
            requires
                digits_val(s.drop_last()) >= 0,
        ;
    }
}

/// The canonical digit string of `n` denotes `n`, is all digits, and has no
/// leading zero unless it is the single digit zero.
pub proof fn lemma_dec_digits(n: int)
    requires
        0 <= n,
    ensures
        all_digits(dec_digits(n)),
        digits_val(dec_digits(n)) == n,
        dec_digits(n).len() >= 1,
        is_ascii_digit(dec_digits(n)[0]),
        n >= 10 ==> dec_digits(n).len() >= 2,
        dec_digits(n)[0] == '0' ==> n == 0,
    decreases n,
{
    if n < 10 {
        let s = dec_digits(n);
        assert(s == seq![digit_char(n)]);
        assert(s.drop_last() =~= Seq::<char>::empty());
        assert(s.last() == digit_char(n));
        assert(digits_val(s) == digits_val(Seq::<char>::empty()) * 10 + digit_val(digit_char(n)));
        assert(digit_val(digit_char(n)) == n);
    } else {
        lemma_dec_digits(n / 10);
        let s = dec_digits(n);
        assert(s == dec_digits(n / 10).push(digit_char(n % 10)));
        assert(s.drop_last() =~= dec_digits(n / 10));
        assert(s.last() == digit_char(n % 10));
        assert(digit_val(digit_char(n % 10)) == n % 10);
        assert(digits_val(s) == (n / 10) * 10 + n % 10);
        assert((n / 10) * 10 + n % 10 == n) by (nonlinear_arith)
            requires
                n >= 0,
        ;
        assert(s[0] == dec_digits(n / 10)[0]);
        assert(n / 10 >= 1);
    }
}

pub proof fn lemma_pow10_pos(n: int)
    ensures
        pow10(n) >= 1,
    decreases n,
{
    if n > 0 {
        lemma_pow10_pos(n - 1);
    }
}

/// A digit string's value only grows when more digits follow.
pub proof fn lemma_digits_val_prefix(s: Seq<char>, k: int)
    requires
        all_digits(s),
        0 <= k <= s.len(),
    ensures
        digits_val(s.take(k)) <= digits_val(s),
{
    let p = s.take(k);
    let rest = s.skip(k);
    assert(s =~= p + rest);
    assert(all_digits(rest)) by {
        assert(forall|i: int| 0 <= i < rest.len() ==> rest[i] == s[k + i]);
    }
    lemma_digits_val_append(p, rest);
    lemma_digits_val_bounds(rest);
    lemma_pow10_pos(rest.len() as int);
    assert(all_digits(p)) by {
        assert(forall|i: int| 0 <= i < p.len() ==> p[i] == s[i]);
    }
    lemma_digits_val_bounds(p);
    assert(digits_val(p) * pow10(rest.len() as int) >= digits_val(p)) by (nonlinear_arith)
        requires
            digits_val(p) >= 0,
            pow10(rest.len() as int) >= 1,
    ;
}

/// The digit portion of a signed decimal literal.
pub open spec fn i64_digits(s: Seq<char>) -> Seq<char> {
    if s.len() > 0 && (s[0] == '+' || s[0] == '-') {
        s.drop_first()
    } else {
        s
    }
}

/// Whether the text is a decimal literal in `i64` range: an optional sign
/// followed by one or more digits, with the magnitude within bounds.
pub open spec fn is_i64_text(s: Seq<char>) -> bool {
    let ds = i64_digits(s);
    &&& ds.len() > 0
    &&& all_digits(ds)
    &&& if s.len() > 0 && s[0] == '-' {
        digits_val(ds) <= 0x8000000000000000
    } else {
        digits_val(ds) <= 0x7fffffffffffffff
    }
}

/// The number an `i64` decimal literal denotes.
pub open spec fn i64_text_val(s: Seq<char>) -> int {
    if s.len() > 0 && s[0] == '-' {
        -digits_val(i64_digits(s))
    } else {
        digits_val(i64_digits(s))
    }
}

/// Decimal parse of `v[start..end]` as an `i64`, exactly as the text model
/// defines it: `Some` on every in-range literal, `None` on everything else.
#[verifier::loop_isolation(false)]
pub fn parse_i64_range(v: &Vec<char>, start: usize, end: usize) -> (r: Option<i64>)
    requires
        start <= end <= v@.len(),
    ensures
        ({
            let s = v@.subrange(start as int, end as int);
            match r {
                Some(i) => is_i64_text(s) && i as int == i64_text_val(s),
                None => !is_i64_text(s),
            }
        }),
{
    let ghost s = v@.subrange(start as int, end as int);
    if start == end {
        assert(i64_digits(s).len() == 0);
        return None;
    }
    let c0 = v[start];
    let neg = c0 == '-';
    let has_sign = c0 == '-' || c0 == '+';
    let dstart = if has_sign {
        start + 1
    } else {
        start
    };
    let ghost ds = i64_digits(s);
    proof {
        assert(ds =~= v@.subrange(dstart as int, end as int));
    }
    if dstart == end {
        assert(ds.len() == 0);
        return None;
    }
    let limit: u64 = if neg {
        9223372036854775808
    } else {
        9223372036854775807
    };
    let mut mag: u64 = 0;
    let mut j = dstart;
    while j < end
        invariant
            dstart <= j <= end,
            all_digits(ds.take(j - dstart)),
            mag as int == digits_val(ds.take(j - dstart)),
            mag <= limit,
        decreases end - j,
    {
        let c = v[j];
        let cu = c as u32;
        proof {
            assert(ds[j - dstart] == c);
        }
        if cu < 48 || cu > 57 {
            assert(!is_ascii_digit(ds[j - dstart]));
            return None;
        }
        let d: u64 = (cu - 48) as u64;
        proof {
            assert(is_ascii_digit(c));
            assert(ds.take(j + 1 - dstart).drop_last() =~= ds.take(j - dstart));
            assert(ds.take(j + 1 - dstart).last() == c);
            assert(digits_val(ds.take(j + 1 - dstart)) == mag * 10 + d);
            assert(all_digits(ds.take(j + 1 - dstart)));
        }
        if mag > (limit - d) / 10 {
            proof {
                let m = mag as int;
                let dd = d as int;
                let li = limit as int;
                assert(m * 10 + dd > li) by (nonlinear_arith)
                    requires
                        m > (li - dd) / 10,
                        0 <= dd <= 9,
                        dd <= li,
                ;
                if all_digits(ds) {
                    lemma_digits_val_prefix(ds, j + 1 - dstart);
                    assert(digits_val(ds) > li);
                }
            }
            return None;
        }
        proof {
            let m = mag as int;
            let dd = d as int;
            let li = limit as int;
            assert(m * 10 + dd <= li) by (nonlinear_arith)
                requires
                    m <= (li - dd) / 10,
                    0 <= dd <= 9,
                    dd <= li,
                    m >= 0,
            ;
        }
        mag = mag * 10 + d;
        j = j + 1;
    }
    proof {
        assert(ds.take(end - dstart) =~= ds);
        assert(is_i64_text(s));
    }
    if neg {
        if mag == 9223372036854775808 {
            Some(i64::MIN)
        } else {
            Some(-(mag as i64))
        }
    } else {
        Some(mag as i64)
    }
}

/// The digit character of a value below ten, as executable code.
fn digit_char_exec(d: u64) -> (r: char)
    requires
        d < 10,
    ensures
        r == digit_char(d as int),
{
    match d {
        0 => '0',
        1 => '1',
        2 => '2',
        3 => '3',
        4 => '4',
        5 => '5',
        6 => '6',
        7 => '7',
        8 => '8',
        _ => '9',
    }
}

/// The canonical decimal digits of a non-negative number.
fn dec_chars(n: u64) -> (r: Vec<char>)
    ensures
        r@ == dec_digits(n as int),
    decreases n,
{
    if n < 10 {
        let mut out: Vec<char> = Vec::new();
        out.push(digit_char_exec(n));
        proof {
            assert(out@ =~= seq![digit_char(n as int)]);
        }
        out
    } else {
        let mut out = dec_chars(n / 10);
        out.push(digit_char_exec(n % 10));
        out
    }
}

/// Renders an integer in its canonical decimal text form.
pub fn format_i64(i: i64) -> (r: Vec<char>)
    ensures
        r@ == int_text(i as int),
{
    if i >= 0 {
        dec_chars(i as u64)
    } else {
        let mag: u64 = ((-(i + 1)) as u64) + 1;
        let mut out: Vec<char> = Vec::new();
        out.push('-');
        let mut digits = dec_chars(mag);
        out.append(&mut digits);
        proof {
            assert(mag as int == -(i as int));
            assert(out@ =~= seq!['-'] + dec_digits(-(i as int)));
        }
        out
    }
}

/// What normalizing a float literal returns: `None` where the text is not a
/// number token of the self-describing grammar (or would overflow a finite
/// 64-bit float), otherwise the canonical text of the number it denotes.
pub uninterp spec fn float_norm_of(s: Seq<char>) -> Option<Seq<char>>;

/// Every character is a digit, a sign, a decimal point or an exponent
/// marker (a `+` occurs only in printed positive exponents).
pub open spec fn float_text_charset(s: Seq<char>) -> bool {
    forall|i: int|
        0 <= i < s.len() ==> (is_ascii_digit(#[trigger] s[i]) || s[i] == '-' || s[i] == '+'
            || s[i] == '.' || s[i] == 'e')
}

/// A well-formed float text: non-empty, over the numeric character set, a
/// single whole number token, not an integer literal in `i64` range (those
/// infer as integers), and a fixed point of normalization, so re-inference
/// restores the same value.
pub open spec fn float_text_wf(t: Seq<char>) -> bool {
    &&& t.len() >= 1
    &&& float_text_charset(t)
    &&& !is_i64_text(t)
    &&& float_norm_of(t) == Some(t)
    &&& (crate::lines::scan_number(t, 0) matches Ok(o) && o.0 == t.len())
}

/// Relies on `serde_json` (with its correctly-rounded `float_roundtrip`
/// parser enabled): `from_str::<Number>` accepts exactly one number token
/// of the JSON grammar (with surrounding whitespace tolerated) and rejects
/// anything else — in particular text that does not scan as a single
/// number token — as well as text whose value would overflow a finite
/// 64-bit float; and `Number`'s `Display` re-prints the parsed number in a
/// canonical form (through `itoa` for integers and a shortest-round-trip
/// float printer otherwise) that uses only digits, `-`, `+` (in positive
/// exponents), `.` and `e`, parses back to the same number, re-prints
/// identically, and is always exactly one number token of that grammar
/// (sign, integer part with no leading zero, optional fraction, optional
/// exponent). An `i64` decimal literal comes back only from an input that,
/// when free of surrounding whitespace, already was one.
#[verifier::external_body]
pub fn normalize_float(s: &str) -> (r: Option<String>)
    ensures
        match r {
            Some(t) => float_norm_of(s@) == Some(t@) && t@.len() >= 1 && float_text_charset(t@)
                && float_norm_of(t@) == Some(t@) && ((is_i64_text(t@) && s@.len() > 0
                && !is_blank_char(s@[0]) && !is_blank_char(s@[s@.len() - 1])) ==> is_i64_text(
                s@,
            )) && (crate::lines::scan_number(t@, 0) matches Ok(o) && o.0 == t@.len()),
            None => float_norm_of(s@) is None,
        },
        !(crate::lines::scan_number(crate::rows::trim_blanks(s@), 0) matches Ok(o) && o.0
            == crate::rows::trim_blanks(s@).len()) ==> r is None,
{
    match serde_json::from_str::<serde_json::Number>(s) {
        Ok(n) => Some(n.to_string()),
        Err(_) => None,
    }
}

/// A whitespace character of the self-describing grammar.
pub open spec fn is_blank_char(c: char) -> bool {
    c == ' ' || c == '\t' || c == '\n' || c == '\r'
}

/// The digit string with its redundant leading zeroes removed (one digit
/// always remains of a non-empty string).
pub open spec fn strip_zeros(ds: Seq<char>) -> Seq<char>
    decreases ds.len(),
{
    if ds.len() > 1 && ds[0] == '0' {
        strip_zeros(ds.drop_first())
    } else {
        ds
    }
}

/// Rebuilds a recognized float spelling as one number token of the
/// normalizer's grammar, preserving its value: the plus sign and redundant
/// leading zeroes go, a missing integer part becomes `0`, a bare trailing
/// point becomes `.0`, and the exponent part is kept verbatim.
pub open spec fn rebuild_float_token(
    neg: bool,
    ints: Seq<char>,
    has_dot: bool,
    fracs: Seq<char>,
    exp: Seq<char>,
) -> Seq<char> {
    let sign: Seq<char> = if neg {
        seq!['-']
    } else {
        Seq::empty()
    };
    let ip: Seq<char> = if ints.len() == 0 {
        seq!['0']
    } else {
        strip_zeros(ints)
    };
    let fp: Seq<char> = if has_dot {
        if fracs.len() == 0 {
            seq!['.', '0']
        } else {
            seq!['.'] + fracs
        }
    } else {
        Seq::empty()
    };
    sign + ip + fp + exp
}

/// Recognizes the float spellings the inference engine accepts — an
/// optional sign, digits around an optional point (at least one digit
/// somewhere), an optional signed exponent — and gives the equivalent
/// token of the normalizer's grammar; `None` for anything else (including
/// the non-finite spellings, which stay text).
pub open spec fn std_float_rebuild(s: Seq<char>) -> Option<Seq<char>> {
    let b: int = if s.len() > 0 && (s[0] == '+' || s[0] == '-') {
        1
    } else {
        0
    };
    let neg = s.len() > 0 && s[0] == '-';
    let ie = crate::lines::scan_digits(s, b);
    let has_dot = 0 <= ie < s.len() && s[ie] == '.';
    let fs: int = if has_dot {
        ie + 1
    } else {
        ie
    };
    let fe = if has_dot {
        crate::lines::scan_digits(s, fs)
    } else {
        fs
    };
    if ie == b && fe == fs {
        None
    } else if fe < s.len() && (s[fe] == 'e' || s[fe] == 'E') {
        let es: int = if fe + 1 < s.len() && (s[fe + 1] == '+' || s[fe + 1] == '-') {
            fe + 2
        } else {
            fe + 1
        };
        let ed = crate::lines::scan_digits(s, es);
        if ed == es || ed != s.len() {
            None
        } else {
            Some(
                rebuild_float_token(
                    neg,
                    s.subrange(b, ie),
                    has_dot,
                    s.subrange(fs, fe),
                    s.subrange(fe, ed),
                ),
            )
        }
    } else if fe != s.len() {
        None
    } else {
        Some(
            rebuild_float_token(
                neg,
                s.subrange(b, ie),
                has_dot,
                s.subrange(fs, fe),
                Seq::empty(),
            ),
        )
    }
}

/// The fixed-precedence scalar inference rule: empty text is `Null`; the
/// exact lowercase literals `true`/`false` are booleans; then a 64-bit
/// integer literal; then a finite 64-bit float; anything else stays text
/// unmodified (no trimming).
///
/// The float step recognizes the plain decimal spellings of a float —
/// optional sign, digits around an optional point, optional signed
/// exponent — rebuilds the spelling as one number token (the verified core
/// may not compute on floating point itself), and takes the normalizer's
/// canonical text for it; a spelling whose value overflows a finite 64-bit
/// float, and the non-finite words, stay text.
pub open spec fn spec_infer(s: Seq<char>) -> ValModel {
    if s.len() == 0 {
        ValModel::Null
    } else if s == seq!['t', 'r', 'u', 'e'] {
        ValModel::Boolean(true)
    } else if s == seq!['f', 'a', 'l', 's', 'e'] {
        ValModel::Boolean(false)
    } else if is_i64_text(s) {
        ValModel::Integer(i64_text_val(s))
    } else {
        match std_float_rebuild(s) {
            None => ValModel::Text(s),
            Some(tok) => match float_norm_of(tok) {
                Some(t) => ValModel::Float(t),
                None => ValModel::Text(s),
            },
        }
    }
}

/// Whether the character is an ASCII digit, as executable code.
fn is_digit_exec(c: char) -> (r: bool)
    ensures
        r == is_ascii_digit(c),
{
    let u = c as u32;
    48 <= u && u <= 57
}

/// `strip_zeros` drops exactly the redundant leading zeroes.
proof fn lemma_strip_zeros_skip(ds: Seq<char>, a: int)
    requires
        0 <= a < ds.len(),
        forall|k: int| 0 <= k < a ==> #[trigger] ds[k] == '0',
        a == ds.len() - 1 || ds[a] != '0',
    ensures
        strip_zeros(ds) == ds.skip(a),
    decreases a,
{
    if a == 0 {
        assert(ds.skip(0) =~= ds);
        if ds.len() > 1 {
            assert(ds[0] != '0');
        }
    } else {
        assert(ds[0] == '0');
        assert(ds.len() > 1);
        assert(forall|k: int|
            0 <= k < ds.drop_first().len() ==> ds.drop_first()[k] == ds[k + 1]);
        lemma_strip_zeros_skip(ds.drop_first(), a - 1);
        assert(ds.drop_first().skip(a - 1) =~= ds.skip(a));
    }
}

/// Stripping leading zeroes keeps a digit string's value.
proof fn lemma_strip_zeros_val(ds: Seq<char>)
    requires
        all_digits(ds),
    ensures
        all_digits(strip_zeros(ds)),
        digits_val(strip_zeros(ds)) == digits_val(ds),
        strip_zeros(ds).len() >= 1 || ds.len() == 0,
    decreases ds.len(),
{
    if ds.len() > 1 && ds[0] == '0' {
        assert(forall|k: int|
            0 <= k < ds.drop_first().len() ==> ds.drop_first()[k] == ds[k + 1]);
        lemma_strip_zeros_val(ds.drop_first());
        let h = ds.take(1);
        let rest = ds.skip(1);
        assert(ds =~= h + rest);
        assert(rest =~= ds.drop_first());
        lemma_digits_val_append(h, rest);
        assert(h.drop_last() =~= Seq::<char>::empty());
        assert(h.last() == '0');
        assert(digits_val(Seq::<char>::empty()) == 0);
        assert(digit_val('0') == 0);
        assert(digits_val(h) == digits_val(h.drop_last()) * 10 + digit_val(h.last()));
        assert(digits_val(h) == 0);
        assert(digits_val(h) * pow10(rest.len() as int) == 0) by (nonlinear_arith)
            requires
                digits_val(h) == 0,
        ;
    }
}

/// The rebuilt token of a text that is not an integer literal is not one
/// either, and is a plain non-blank token.
#[verifier::rlimit(100)]
#[verifier::spinoff_prover]
proof fn lemma_rebuild_not_i64(s: Seq<char>)
    requires
        !is_i64_text(s),
        std_float_rebuild(s) is Some,
    ensures
        ({
            let tok = std_float_rebuild(s)->Some_0;
            &&& tok.len() >= 1
            &&& !is_blank_char(tok[0])
            &&& !is_blank_char(tok[tok.len() - 1])
            &&& !is_i64_text(tok)
        }),
{
    let tok = std_float_rebuild(s)->Some_0;
    let b: int = if s.len() > 0 && (s[0] == '+' || s[0] == '-') {
        1
    } else {
        0
    };
    let neg = s.len() > 0 && s[0] == '-';
    let ie = crate::lines::scan_digits(s, b);
    crate::lines::lemma_scan_digits(s, b as int);
    let has_dot = 0 <= ie < s.len() && s[ie] == '.';
    let fs: int = if has_dot {
        ie + 1
    } else {
        ie
    };
    let fe = if has_dot {
        crate::lines::scan_digits(s, fs)
    } else {
        fs
    };
    if has_dot {
        crate::lines::lemma_scan_digits(s, fs);
    }
    let ints = s.subrange(b, ie);
    let fracs = s.subrange(fs, fe);
    assert(all_digits(ints)) by {
        assert(forall|k: int| 0 <= k < ints.len() ==> ints[k] == s[b + k]);
    }
    let sign: Seq<char> = if neg {
        seq!['-']
    } else {
        Seq::empty()
    };
    let ip: Seq<char> = if ints.len() == 0 {
        seq!['0']
    } else {
        strip_zeros(ints)
    };
    let fp: Seq<char> = if has_dot {
        if fracs.len() == 0 {
            seq!['.', '0']
        } else {
            seq!['.'] + fracs
        }
    } else {
        Seq::empty()
    };
    lemma_strip_zeros_val(ints);
    assert(ip.len() >= 1);
    assert(is_ascii_digit(ip[0]) || ip[0] == '0') by {
        if ints.len() == 0 {
        } else {
            assert(all_digits(ip));
        }
    }
    assert(is_ascii_digit(ip[0])) by {
        if ints.len() == 0 {
            assert(ip[0] == '0');
        } else {
            assert(all_digits(ip));
        }
    }
    let has_exp = fe < s.len() && (s[fe] == 'e' || s[fe] == 'E');
    let es: int = if fe + 1 < s.len() && (s[fe + 1] == '+' || s[fe + 1] == '-') {
        fe + 2
    } else {
        fe + 1
    };
    if has_exp {
        crate::lines::lemma_scan_digits(s, es);
        let ed = crate::lines::scan_digits(s, es);
        assert(ed == s.len() && ed != es);
    }
    let exp: Seq<char> = if has_exp {
        s.subrange(fe, s.len() as int)
    } else {
        Seq::empty()
    };
    assert(tok == sign + ip + fp + exp) by {
        if has_exp {
            let ed = crate::lines::scan_digits(s, es);
            assert(s.subrange(fe, ed) =~= exp);
        }
    }
    // The token's ends.
    assert(tok.len() >= 1);
    assert(tok[0] == '-' || tok[0] == ip[0]) by {
        if neg {
            assert(tok[0] == sign[0]);
        } else {
            assert(sign.len() == 0);
            assert(tok[0] == (ip + fp + exp)[0]) by {
                assert(sign + ip + fp + exp =~= ip + fp + exp);
            }
        }
    }
    assert(!is_blank_char(tok[0]));
    let last = tok[tok.len() - 1];
    assert(last == (if exp.len() > 0 {
        exp[exp.len() - 1]
    } else if fp.len() > 0 {
        fp[fp.len() - 1]
    } else {
        ip[ip.len() - 1]
    }));
    assert(!is_blank_char(last)) by {
        if exp.len() > 0 {
            assert(has_exp);
            let ed = crate::lines::scan_digits(s, es);
            assert(es <= s.len() - 1 < ed);
            assert(exp[exp.len() - 1] == s[s.len() - 1]);
            assert(is_ascii_digit(s[s.len() - 1]));
        } else if fp.len() > 0 {
            if fracs.len() == 0 {
                assert(fp[fp.len() - 1] == '0');
            } else {
                assert(fp[fp.len() - 1] == fracs[fracs.len() - 1]);
                assert(is_ascii_digit(fracs[fracs.len() - 1])) by {
                    assert(fracs[fracs.len() - 1] == s[fs + fracs.len() - 1]);
                }
            }
        } else {
            assert(all_digits(ip));
        }
    }
    // Not an integer literal.
    if fp.len() == 0 && exp.len() == 0 {
        // The whole text was sign-plus-digits, so its value is out of
        // range, and stripping zeroes keeps the value.
        assert(ie == fe);
        assert(fe == s.len());
        assert(ints.len() >= 1);
        assert(tok =~= sign + ip);
        let ds_t = i64_digits(tok);
        assert(ds_t =~= ip) by {
            if neg {
                assert(tok[0] == '-');
                assert(ds_t =~= tok.drop_first());
            } else {
                assert(tok[0] == ip[0]);
                assert(is_ascii_digit(tok[0]));
                assert(tok[0] != '+' && tok[0] != '-');
                assert(tok =~= ip);
            }
        }
        let ds_s = i64_digits(s);
        assert(ds_s =~= ints) by {
            if b == 1 {
                assert(ds_s =~= s.drop_first());
                assert(s.drop_first() =~= ints);
            } else {
                assert(s[0] != '+' && s[0] != '-') by {
                    assert(is_ascii_digit(s[0])) by {
                        assert(ints.len() >= 1);
                        assert(ints[0] == s[0]);
                    }
                }
                assert(ds_s =~= s);
                assert(s =~= ints);
            }
        }
        assert(digits_val(ds_t) == digits_val(ds_s)) by {
            lemma_strip_zeros_val(ints);
        }
        assert(!is_i64_text(tok)) by {
            if is_i64_text(tok) {
                assert(ds_s.len() > 0);
                assert(all_digits(ds_s));
                assert((s.len() > 0 && s[0] == '-') == (tok.len() > 0 && tok[0] == '-')) by {
                    if neg {
                        assert(tok[0] == '-');
                    } else {
                        assert(is_ascii_digit(tok[0]));
                    }
                }
                assert(is_i64_text(s));
            }
        }
    } else {
        // The token holds a point or an exponent marker past any sign.
        let p: int = 1 + (if neg {
            1int
        } else {
            0
        }) * 0 + sign.len() + ip.len() - 1;
        let marker_pos = sign.len() + ip.len() as int;
        assert(0 < marker_pos < tok.len());
        assert(tok[marker_pos] == '.' || tok[marker_pos] == 'e' || tok[marker_pos] == 'E') by {
            if fp.len() > 0 {
                assert(tok[marker_pos] == fp[0]);
                assert(fp[0] == '.');
            } else {
                assert(tok[marker_pos] == exp[0]);
                assert(exp[0] == s[fe]);
            }
        }
        assert(!is_i64_text(tok)) by {
            if is_i64_text(tok) {
                let ds_t = i64_digits(tok);
                if tok[0] == '+' || tok[0] == '-' {
                    assert(marker_pos >= 1);
                    assert(ds_t[marker_pos - 1] == tok[marker_pos]);
                    assert(is_ascii_digit(ds_t[marker_pos - 1]));
                } else {
                    assert(ds_t[marker_pos] == tok[marker_pos]);
                    assert(is_ascii_digit(ds_t[marker_pos]));
                }
            }
        }
    }
}

/// Copies `v[start..end]` into a fresh vector.
pub fn copy_range(v: &Vec<char>, start: usize, end: usize) -> (r: Vec<char>)
    requires
        start <= end <= v@.len(),
    ensures
        r@ == v@.subrange(start as int, end as int),
{
    let mut out: Vec<char> = Vec::new();
    let mut i = start;
    while i < end
        invariant
            start <= i <= end <= v@.len(),
            out@ =~= v@.subrange(start as int, i as int),
        decreases end - i,
    {
        out.push(v[i]);
        proof {
            assert(out@ =~= v@.subrange(start as int, i + 1 as int));
        }
        i = i + 1;
    }
    proof {
        assert(out@ =~= v@.subrange(start as int, end as int));
    }
    out
}

/// Scans the digit run of `v[i..end]`, reported relative to the slice
/// starting at `start`.
#[verifier::loop_isolation(false)]
fn scan_digits_in(v: &Vec<char>, start: usize, i: usize, end: usize) -> (r: usize)
    requires
        start <= i <= end <= v@.len(),
    ensures
        i <= r <= end,
        r - start == crate::lines::scan_digits(
            v@.subrange(start as int, end as int),
            i - start,
        ),
{
    let ghost s = v@.subrange(start as int, end as int);
    proof {
        assert(forall|k: int| 0 <= k < s.len() ==> s[k] == v@[start + k]);
    }
    let mut r = i;
    while r < end && is_digit_exec(v[r])
        invariant
            i <= r <= end,
            forall|k: int| i <= k < r ==> is_ascii_digit(#[trigger] v@[k]),
        decreases end - r,
    {
        r = r + 1;
    }
    proof {
        assert forall|k: int| i - start <= k < r - start implies is_ascii_digit(
            #[trigger] s[k],
        ) by {
            assert(s[k] == v@[start + k]);
        }
        assert(r - start == s.len() || !is_ascii_digit(s[r - start])) by {
            if r < end {
                assert(s[r - start] == v@[r as int]);
            }
        }
        crate::lines::lemma_pin_scan_digits(s, (i - start) as int, (r - start) as int);
    }
    r
}

/// Recognizes a float spelling in `v[start..end]` and rebuilds it as one
/// number token, mirroring the specification.
#[verifier::rlimit(100)]
#[verifier::spinoff_prover]
#[verifier::loop_isolation(false)]
fn rebuild_float_exec(v: &Vec<char>, start: usize, end: usize) -> (r: Option<Vec<char>>)
    requires
        start <= end <= v@.len(),
    ensures
        match r {
            Some(tok) => std_float_rebuild(v@.subrange(start as int, end as int)) == Some(tok@),
            None => std_float_rebuild(v@.subrange(start as int, end as int)) is None,
        },
{
    let ghost s = v@.subrange(start as int, end as int);
    proof {
        assert(forall|k: int| 0 <= k < s.len() ==> s[k] == v@[start + k]);
    }
    let b = if start < end && (v[start] == '+' || v[start] == '-') {
        start + 1
    } else {
        start
    };
    let neg = start < end && v[start] == '-';
    let ie = scan_digits_in(v, start, b, end);
    let has_dot = ie < end && v[ie] == '.';
    let fs = if has_dot {
        ie + 1
    } else {
        ie
    };
    let fe = if has_dot {
        scan_digits_in(v, start, fs, end)
    } else {
        fs
    };
    if ie == b && fe == fs {
        return None;
    }
    let exp_end: usize = if fe < end && (v[fe] == 'e' || v[fe] == 'E') {
        let es = if fe + 1 < end && (v[fe + 1] == '+' || v[fe + 1] == '-') {
            fe + 2
        } else {
            fe + 1
        };
        let ed = scan_digits_in(v, start, es, end);
        if ed == es || ed != end {
            return None;
        }
        ed
    } else {
        if fe != end {
            return None;
        }
        fe
    };
    // Build the token.
    let tok = build_float_token(v, start, end, neg, b, ie, has_dot, fs, fe, exp_end);
    proof {
        let ints = s.subrange((b - start) as int, (ie - start) as int);
        let gfracs = s.subrange((fs - start) as int, (fe - start) as int);
        let gexp: Seq<char> = if exp_end > fe {
            s.subrange((fe - start) as int, (exp_end - start) as int)
        } else {
            Seq::<char>::empty()
        };
        assert(std_float_rebuild(s) == Some(rebuild_float_token(neg, ints, has_dot, gfracs, gexp)));
    }
    Some(tok)
}

/// Writes the rebuilt token from the recognized parts.
#[verifier::rlimit(100)]
#[verifier::spinoff_prover]
#[verifier::loop_isolation(false)]
fn build_float_token(
    v: &Vec<char>,
    start: usize,
    end: usize,
    neg: bool,
    b: usize,
    ie: usize,
    has_dot: bool,
    fs: usize,
    fe: usize,
    exp_end: usize,
) -> (tok: Vec<char>)
    requires
        start <= b <= ie <= end <= v@.len(),
        fs as int == if has_dot {
            ie + 1
        } else {
            ie as int
        },
        has_dot ==> ie < end,
        fs <= fe <= end,
        fe <= exp_end <= end,
    ensures
        ({
            let s = v@.subrange(start as int, end as int);
            let ints = s.subrange((b - start) as int, (ie - start) as int);
            let gfracs = s.subrange((fs - start) as int, (fe - start) as int);
            let gexp: Seq<char> = if exp_end > fe {
                s.subrange((fe - start) as int, (exp_end - start) as int)
            } else {
                Seq::empty()
            };
            tok@ == rebuild_float_token(neg, ints, has_dot, gfracs, gexp)
        }),
{
    let ghost s = v@.subrange(start as int, end as int);
    proof {
        assert(forall|k: int| 0 <= k < s.len() ==> s[k] == v@[start + k]);
    }

    let ghost ints = s.subrange((b - start) as int, (ie - start) as int);
    let ghost gsign: Seq<char> = if neg {
        seq!['-']
    } else {
        Seq::<char>::empty()
    };
    let ghost gip: Seq<char> = if ints.len() == 0 {
        seq!['0']
    } else {
        strip_zeros(ints)
    };
    let ghost gfracs = s.subrange((fs - start) as int, (fe - start) as int);
    let ghost gfp: Seq<char> = if has_dot {
        if gfracs.len() == 0 {
            seq!['.', '0']
        } else {
            seq!['.'] + gfracs
        }
    } else {
        Seq::<char>::empty()
    };
    let ghost gexp: Seq<char> = if exp_end > fe {
        s.subrange((fe - start) as int, (exp_end - start) as int)
    } else {
        Seq::<char>::empty()
    };
    let mut tok: Vec<char> = Vec::new();
    if neg {
        tok.push('-');
    }
    proof {
        assert(tok@ =~= gsign);
    }
    if ie == b {
        tok.push('0');
    } else {
        let mut z = b;
        while z + 1 < ie && v[z] == '0'
            invariant
                b <= z < ie,
                forall|k: int| b <= k < z ==> #[trigger] v@[k] == '0',
            decreases ie - z,
        {
            z = z + 1;
        }
        proof {
            assert forall|k: int| 0 <= k < z - b implies #[trigger] ints[k] == '0' by {
                assert(ints[k] == v@[b + k]);
            }
            assert(z - b == ints.len() - 1 || ints[(z - b) as int] != '0') by {
                if z + 1 < ie {
                    assert(ints[(z - b) as int] == v@[z as int]);
                }
            }
            lemma_strip_zeros_skip(ints, (z - b) as int);
        }
        let mut part = copy_range(v, z, ie);
        proof {
            assert(part@ =~= ints.skip((z - b) as int));
        }
        tok.append(&mut part);
    }
    proof {
        assert(tok@ =~= gsign + gip);
    }
    if has_dot {
        tok.push('.');
        if fe == fs {
            tok.push('0');
        } else {
            let mut part = copy_range(v, fs, fe);
            proof {
                assert(part@ =~= gfracs);
            }
            tok.append(&mut part);
        }
    }
    proof {
        assert(tok@ =~= gsign + gip + gfp);
    }
    if exp_end > fe {
        let mut part = copy_range(v, fe, exp_end);
        proof {
            assert(part@ =~= gexp);
        }
        tok.append(&mut part);
    }
    proof {
        assert(tok@ =~= gsign + gip + gfp + gexp);
        assert(tok@ == rebuild_float_token(neg, ints, has_dot, gfracs, gexp));
    }
    tok
}
/// Scalar inference on `v[start..end]`, following the fixed precedence.
#[verifier::loop_isolation(false)]
pub fn infer_scalar_range(v: &Vec<char>, start: usize, end: usize) -> (r: Value)
    requires
        start <= end <= v@.len(),
    ensures
        r@ == spec_infer(v@.subrange(start as int, end as int)),
        crate::value::model_wf(r@),
{
    let ghost s = v@.subrange(start as int, end as int);
    let n = end - start;
    if n == 0 {
        assert(s =~= Seq::<char>::empty());
        return Value::Null;
    }
    if n == 4 && v[start] == 't' && v[start + 1] == 'r' && v[start + 2] == 'u' && v[start + 3]
        == 'e' {
        proof {
            assert(s =~= seq!['t', 'r', 'u', 'e']);
        }
        return Value::Boolean(true);
    }
    if n == 5 && v[start] == 'f' && v[start + 1] == 'a' && v[start + 2] == 'l' && v[start + 3]
        == 's' && v[start + 4] == 'e' {
        proof {
            assert(s =~= seq!['f', 'a', 'l', 's', 'e']);
        }
        return Value::Boolean(false);
    }
    proof {
        assert(s != seq!['t', 'r', 'u', 'e']) by {
            if s == seq!['t', 'r', 'u', 'e'] {
                assert(s.len() == 4);
                assert(s[0] == 't' && s[1] == 'r' && s[2] == 'u' && s[3] == 'e');
            }
        }
        assert(s != seq!['f', 'a', 'l', 's', 'e']) by {
            if s == seq!['f', 'a', 'l', 's', 'e'] {
                assert(s.len() == 5);
                assert(s[0] == 'f' && s[1] == 'a' && s[2] == 'l' && s[3] == 's' && s[4] == 'e');
            }
        }
    }
    match parse_i64_range(v, start, end) {
        Some(i) => Value::Integer(i),
        None => {
            let tok = match rebuild_float_exec(v, start, end) {
                None => {
                    let sub = copy_range(v, start, end);
                    let text = crate::text::string_of_chars(&sub);
                    return Value::Text(text);
                },
                Some(tok) => tok,
            };
            proof {
                lemma_rebuild_not_i64(s);
            }
            let tokstr = crate::text::string_of_chars(&tok);
            match normalize_float(tokstr.as_str()) {
                Some(norm) => {
                    proof {
                        assert(float_text_wf(norm@));
                    }
                    Value::Float(norm)
                },
                None => {
                    let sub = copy_range(v, start, end);
                    let text = crate::text::string_of_chars(&sub);
                    Value::Text(text)
                },
            }
        },
    }
}

/// Scalar inference over a whole string slice.
pub fn infer_scalar(s: &str) -> (r: Value)
    ensures
        r@ == spec_infer(s@),
        crate::value::model_wf(r@),
{
    let cs = crate::text::chars_of_str(s);
    proof {
        assert(cs@.subrange(0, cs@.len() as int) =~= s@);
    }
    infer_scalar_range(&cs, 0, cs.len())
}

/// Whether a model value is a scalar (not a sequence and not a map).
pub open spec fn is_scalar_model(m: ValModel) -> bool {
    !(m is Sequence) && !(m is Mapping)
}

/// The natural text form of a scalar: nothing for `Null`, the fixed boolean
/// literals, canonical decimal for integers, the formatter's text for
/// floats, and the text itself for strings.
pub open spec fn scalar_raw_text(m: ValModel) -> Seq<char> {
    match m {
        ValModel::Null => Seq::empty(),
        ValModel::Boolean(b) => if b {
            seq!['t', 'r', 'u', 'e']
        } else {
            seq!['f', 'a', 'l', 's', 'e']
        },
        ValModel::Integer(i) => int_text(i),
        ValModel::Float(t) => t,
        ValModel::Text(s) => s,
        _ => Seq::empty(),
    }
}

/// Whether the value is a scalar.
pub fn is_scalar_exec(v: &Value) -> (r: bool)
    ensures
        r == is_scalar_model(v@),
{
    match v {
        Value::Sequence(_) => false,
        Value::Mapping(_) => false,
        _ => true,
    }
}

/// Renders a scalar in its natural text form.
pub fn render_scalar(v: &Value) -> (r: Vec<char>)
    requires
        is_scalar_model(v@),
    ensures
        r@ == scalar_raw_text(v@),
{
    match v {
        Value::Null => Vec::new(),
        Value::Boolean(b) => {
            let mut out: Vec<char> = Vec::new();
            if *b {
                out.push('t');
                out.push('r');
                out.push('u');
                out.push('e');
                proof {
                    assert(out@ =~= seq!['t', 'r', 'u', 'e']);
                }
            } else {
                out.push('f');
                out.push('a');
                out.push('l');
                out.push('s');
                out.push('e');
                proof {
                    assert(out@ =~= seq!['f', 'a', 'l', 's', 'e']);
                }
            }
            out
        },
        Value::Integer(i) => format_i64(*i),
        Value::Float(t) => crate::text::chars_of_str(t.as_str()),
        Value::Text(s) => crate::text::chars_of_str(s.as_str()),
        _ => {
            proof {
                assert(false);
            }
            Vec::new()
        },
    }
}

/// Re-inference is the identity on non-text scalars: the natural text of a
/// null, boolean, integer or well-formed float infers back to the same
/// value.
pub proof fn lemma_reinfer_scalar(m: ValModel)
    requires
        is_scalar_model(m),
        crate::value::model_wf(m),
        !(m is Text),
    ensures
        spec_infer(scalar_raw_text(m)) == m,
{
    match m {
        ValModel::Null => {
        },
        ValModel::Boolean(b) => {
        },
        ValModel::Integer(i) => {
            lemma_int_text_infer(i);
        },
        ValModel::Float(t) => {
            lemma_float_text_infer(t);
        },
        _ => {
        },
    }
}

/// The canonical decimal text of an in-range integer re-infers as exactly
/// that integer.
pub proof fn lemma_int_text_infer(i: int)
    requires
        i64::MIN <= i <= i64::MAX,
    ensures
        spec_infer(int_text(i)) == ValModel::Integer(i),
        int_text(i).len() >= 1,
{
    let s = int_text(i);
    if i >= 0 {
        lemma_dec_digits(i);
        assert(s == dec_digits(i));
        assert(is_ascii_digit(s[0]));
        assert(s[0] != 't' && s[0] != 'f');
        assert(s != seq!['t', 'r', 'u', 'e']);
        assert(s != seq!['f', 'a', 'l', 's', 'e']);
        assert(i64_digits(s) == s) by {
            assert(s[0] != '+' && s[0] != '-');
        }
        assert(is_i64_text(s));
        assert(i64_text_val(s) == i);
    } else {
        lemma_dec_digits(-i);
        assert(s == seq!['-'] + dec_digits(-i));
        assert(s[0] == '-');
        assert(s != seq!['t', 'r', 'u', 'e']);
        assert(s != seq!['f', 'a', 'l', 's', 'e']);
        let ds = i64_digits(s);
        assert(ds =~= dec_digits(-i));
        assert(digits_val(ds) == -i);
        assert(-i <= 0x8000000000000000);
        assert(is_i64_text(s));
        assert(i64_text_val(s) == i);
    }
}

/// A well-formed float text re-infers as exactly that float.
#[verifier::rlimit(100)]
#[verifier::spinoff_prover]
pub proof fn lemma_float_text_infer(t: Seq<char>)
    requires
        float_text_wf(t),
    ensures
        spec_infer(t) == ValModel::Float(t),
{
    let s = t;
    assert(s.len() >= 1);
    assert(s != seq!['t', 'r', 'u', 'e']) by {
        if s == seq!['t', 'r', 'u', 'e'] {
            assert(s[0] == 't');
            assert(is_ascii_digit(s[0]) || s[0] == '-' || s[0] == '+' || s[0] == '.' || s[0]
                == 'e');
        }
    }
    assert(s != seq!['f', 'a', 'l', 's', 'e']) by {
        if s == seq!['f', 'a', 'l', 's', 'e'] {
            assert(s[0] == 'f');
            assert(is_ascii_digit(s[0]) || s[0] == '-' || s[0] == '+' || s[0] == '.' || s[0]
                == 'e');
        }
    }
    lemma_wf_rebuild_identity(t);
    assert(std_float_rebuild(t) == Some(t));
    assert(float_norm_of(t) == Some(t));
}

/// A canonical number token rebuilds to itself.
#[verifier::rlimit(100)]
#[verifier::spinoff_prover]
proof fn lemma_wf_rebuild_identity(t: Seq<char>)
    requires
        crate::lines::scan_number(t, 0) matches Ok(o) && o.0 == t.len(),
        t.len() >= 1,
    ensures
        std_float_rebuild(t) == Some(t),
{
    let ln = t.len() as int;
    // The token's sign and first digit.
    let d0: int = if t[0] == '-' {
        1
    } else {
        0
    };
    assert(0 <= d0 < t.len() && is_ascii_digit(t[d0]));
    assert(t[0] == '-' || is_ascii_digit(t[0]));
    let b: int = if t[0] == '+' || t[0] == '-' {
        1
    } else {
        0
    };
    assert(b == d0);
    let neg = t[0] == '-';
    // The integer part ends where the token scanner says.
    crate::lines::lemma_scan_digits(t, d0);
    let int_end: int = if t[d0] == '0' {
        d0 + 1
    } else {
        crate::lines::scan_digits(t, d0)
    };
    if t[d0] == '0' {
        assert(int_end == ln || !is_ascii_digit(t[int_end])) by {
            if int_end < ln && is_ascii_digit(t[int_end]) {
                // Then the token scan would have stopped early.
                assert(crate::lines::scan_number(t, 0)->Ok_0.0 < ln || !(crate::lines::scan_number(
                    t,
                    0,
                ) matches Ok(_)));
            }
        }
        crate::lines::lemma_pin_scan_digits(t, d0, d0 + 1);
    }
    let ie = crate::lines::scan_digits(t, b);
    assert(ie == int_end);
    let ints = t.subrange(b, ie);
    assert(ints.len() >= 1);
    assert(strip_zeros(ints) == ints) by {
        if ints.len() > 1 {
            assert(ints[0] == t[d0]);
            assert(t[d0] != '0');
        }
    }
    // The fraction.
    let has_dot = ie < ln && t[ie] == '.';
    let fs: int = if has_dot {
        ie + 1
    } else {
        ie
    };
    let fe: int = if has_dot {
        crate::lines::scan_digits(t, fs)
    } else {
        fs
    };
    if has_dot {
        crate::lines::lemma_scan_digits(t, fs);
        assert(fe > fs) by {
            if fe == fs {
                assert(!(crate::lines::scan_number(t, 0) matches Ok(_)) || crate::lines::scan_number(
                    t,
                    0,
                )->Ok_0.0 < ln);
            }
        }
    }
    let fracs = t.subrange(fs, fe);
    // The exponent.
    let has_exp = fe < ln && (t[fe] == 'e' || t[fe] == 'E');
    let es: int = if fe + 1 < ln && (t[fe + 1] == '+' || t[fe + 1] == '-') {
        fe + 2
    } else {
        fe + 1
    };
    if has_exp {
        crate::lines::lemma_scan_digits(t, es);
        let ed = crate::lines::scan_digits(t, es);
        assert(ed == ln && ed != es) by {
            if ed != ln || ed == es {
                assert(!(crate::lines::scan_number(t, 0) matches Ok(_)) || crate::lines::scan_number(
                    t,
                    0,
                )->Ok_0.0 != ln);
            }
        }
    } else {
        assert(fe == ln) by {
            if fe < ln {
                assert(!(crate::lines::scan_number(t, 0) matches Ok(_)) || crate::lines::scan_number(
                    t,
                    0,
                )->Ok_0.0 != ln);
            }
        }
    }
    // Reassembly gives the token back.
    let gsign: Seq<char> = if neg {
        seq!['-']
    } else {
        Seq::<char>::empty()
    };
    let gip = ints;
    let gfp: Seq<char> = if has_dot {
        seq!['.'] + fracs
    } else {
        Seq::<char>::empty()
    };
    let gexp: Seq<char> = if has_exp {
        t.subrange(fe, ln)
    } else {
        Seq::<char>::empty()
    };
    assert(gsign + gip + gfp + gexp =~= t);
    if has_exp {
        assert(std_float_rebuild(t) == Some(rebuild_float_token(neg, ints, has_dot, fracs, t.subrange(fe, ln))));
        assert(rebuild_float_token(neg, ints, has_dot, fracs, t.subrange(fe, ln)) == gsign + gip
            + gfp + gexp);
    } else {
        assert(std_float_rebuild(t) == Some(
            rebuild_float_token(neg, ints, has_dot, fracs, Seq::<char>::empty()),
        ));
        assert(rebuild_float_token(neg, ints, has_dot, fracs, Seq::<char>::empty()) == gsign + gip
            + gfp + gexp);
    }
}


} // verus!
