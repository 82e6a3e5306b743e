use vstd::prelude::*;

verus! {

use crate::scalar::{is_blank_char, is_scalar_model, scalar_raw_text, spec_infer};
use crate::value::{ValModel, StructuralError, Value};

// ---------------------------------------------------------------------------
// Text-level building blocks: escaping, trimming, field and line splitting.
// ---------------------------------------------------------------------------

/// How one character is written inside a quoted cell: quote, backslash and
/// the three control characters are escaped, everything else stands as is.
pub open spec fn escape_char(c: char) -> Seq<char> {
    if c == '"' {
        seq!['\\', '"']
    } else if c == '\\' {
        seq!['\\', '\\']
    } else if c == '\n' {
        seq!['\\', 'n']
    } else if c == '\r' {
        seq!['\\', 'r']
    } else if c == '\t' {
        seq!['\\', 't']
    } else {
        seq![c]
    }
}

/// The escaped form of a text, character by character.
pub open spec fn escape_text(s: Seq<char>) -> Seq<char>
    decreases s.len(),
{
    if s.len() == 0 {
        Seq::empty()
    } else {
        escape_char(s[0]) + escape_text(s.drop_first())
    }
}

/// Decodes the interior of a quoted cell; `None` on a bad escape or a stray
/// quote.
pub open spec fn unescape_text(s: Seq<char>) -> Option<Seq<char>>
    decreases s.len(),
{
    if s.len() == 0 {
        Some(Seq::empty())
    } else if s[0] == '\\' {
        if s.len() < 2 {
            None
        } else {
            let c = if s[1] == '"' {
                Some('"')
            } else if s[1] == '\\' {
                Some('\\')
            } else if s[1] == 'n' {
                Some('\n')
            } else if s[1] == 'r' {
                Some('\r')
            } else if s[1] == 't' {
                Some('\t')
            } else {
                None
            };
            match c {
                None => None,
                Some(ch) => match unescape_text(s.skip(2)) {
                    None => None,
                    Some(rest) => Some(seq![ch] + rest),
                },
            }
        }
    } else if s[0] == '"' {
        None
    } else {
        match unescape_text(s.skip(1)) {
            None => None,
            Some(rest) => Some(seq![s[0]] + rest),
        }
    }
}

/// Unescaping inverts escaping, for every text.
pub proof fn lemma_unescape_escape(s: Seq<char>)
    ensures
        unescape_text(escape_text(s)) == Some(s),
    decreases s.len(),
{
    if s.len() > 0 {
        lemma_unescape_escape(s.drop_first());
        let e = escape_text(s);
        let c = s[0];
        if c == '"' || c == '\\' || c == '\n' || c == '\r' || c == '\t' {
            assert(e =~= escape_char(c) + escape_text(s.drop_first()));
            assert(e.skip(2) =~= escape_text(s.drop_first()));
            assert(unescape_text(e) == Some(seq![c] + s.drop_first()));
            assert(seq![c] + s.drop_first() =~= s);
        } else {
            assert(e =~= seq![c] + escape_text(s.drop_first()));
            assert(e.skip(1) =~= escape_text(s.drop_first()));
            assert(unescape_text(e) == Some(seq![c] + s.drop_first()));
            assert(seq![c] + s.drop_first() =~= s);
        }
    }
}

/// The text with leading blanks removed.
pub open spec fn trim_front(s: Seq<char>) -> Seq<char>
    decreases s.len(),
{
    if s.len() > 0 && is_blank_char(s[0]) {
        trim_front(s.drop_first())
    } else {
        s
    }
}

/// The text with trailing blanks removed.
pub open spec fn trim_back(s: Seq<char>) -> Seq<char>
    decreases s.len(),
{
    if s.len() > 0 && is_blank_char(s.last()) {
        trim_back(s.drop_last())
    } else {
        s
    }
}

/// The text with blanks removed at both ends.
pub open spec fn trim_blanks(s: Seq<char>) -> Seq<char> {
    trim_back(trim_front(s))
}

/// `trim_front` drops exactly the leading run of blanks.
pub proof fn lemma_trim_front_skip(s: Seq<char>, a: int)
    requires
        0 <= a <= s.len(),
        forall|j: int| 0 <= j < a ==> is_blank_char(#[trigger] s[j]),
        a == s.len() || !is_blank_char(s[a]),
    ensures
        trim_front(s) == s.skip(a),
    decreases a,
{
    if a == 0 {
        assert(s.skip(0) =~= s);
    } else {
        assert(is_blank_char(s[0]));
        lemma_trim_front_skip(s.drop_first(), a - 1);
        assert(s.drop_first().skip(a - 1) =~= s.skip(a));
    }
}

/// `trim_back` drops exactly the trailing run of blanks.
pub proof fn lemma_trim_back_take(s: Seq<char>, b: int)
    requires
        0 <= b <= s.len(),
        forall|j: int| b <= j < s.len() ==> is_blank_char(#[trigger] s[j]),
        b == 0 || !is_blank_char(s[b - 1]),
    ensures
        trim_back(s) == s.take(b),
    decreases s.len() - b,
{
    if b == s.len() {
        assert(s.take(b) =~= s);
        if s.len() > 0 {
            assert(!is_blank_char(s.last()));
        }
    } else {
        assert(is_blank_char(s.last()));
        lemma_trim_back_take(s.drop_last(), b);
        assert(s.drop_last().take(b) =~= s.take(b));
    }
}

/// Splits a line into raw fields at unquoted commas, tracking quote and
/// escape state; `None` when the line ends inside a quoted cell.
pub open spec fn split_fields_rec(
    s: Seq<char>,
    i: int,
    cur: Seq<char>,
    in_q: bool,
    esc: bool,
    acc: Seq<Seq<char>>,
) -> Option<Seq<Seq<char>>>
    decreases s.len() - i,
{
    if i < 0 || i >= s.len() {
        if in_q {
            None
        } else {
            Some(acc.push(cur))
        }
    } else {
        let c = s[i];
        if in_q {
            if esc {
                split_fields_rec(s, i + 1, cur.push(c), true, false, acc)
            } else if c == '\\' {
                split_fields_rec(s, i + 1, cur.push(c), true, true, acc)
            } else if c == '"' {
                split_fields_rec(s, i + 1, cur.push(c), false, false, acc)
            } else {
                split_fields_rec(s, i + 1, cur.push(c), true, false, acc)
            }
        } else {
            if c == ',' {
                split_fields_rec(s, i + 1, Seq::empty(), false, false, acc.push(cur))
            } else if c == '"' {
                split_fields_rec(s, i + 1, cur.push(c), true, false, acc)
            } else {
                split_fields_rec(s, i + 1, cur.push(c), false, false, acc)
            }
        }
    }
}

pub open spec fn split_fields(s: Seq<char>) -> Option<Seq<Seq<char>>> {
    split_fields_rec(s, 0, Seq::empty(), false, false, Seq::empty())
}

/// A line with its single trailing carriage return removed.
pub open spec fn strip_cr(l: Seq<char>) -> Seq<char> {
    if l.len() > 0 && l.last() == '\r' {
        l.drop_last()
    } else {
        l
    }
}

/// Splits text into lines at `\n`, stripping one `\r` before each break and
/// dropping a final empty segment (so a trailing newline adds no record).
pub open spec fn split_lines_rec(
    s: Seq<char>,
    i: int,
    cur: Seq<char>,
    acc: Seq<Seq<char>>,
) -> Seq<Seq<char>>
    decreases s.len() - i,
{
    if i < 0 || i >= s.len() {
        if cur.len() == 0 {
            acc
        } else {
            acc.push(strip_cr(cur))
        }
    } else if s[i] == '\n' {
        split_lines_rec(s, i + 1, Seq::empty(), acc.push(strip_cr(cur)))
    } else {
        split_lines_rec(s, i + 1, cur.push(s[i]), acc)
    }
}

pub open spec fn split_lines(s: Seq<char>) -> Seq<Seq<char>> {
    split_lines_rec(s, 0, Seq::empty(), Seq::empty())
}

// ---------------------------------------------------------------------------
// The cell grammar: how one scalar is written into and read from a field.
// ---------------------------------------------------------------------------

/// How one scalar is written into a field: texts are always quoted with
/// their interior escaped; every other scalar uses its natural text form
/// (nothing for `Null`).
pub open spec fn cell_text(m: ValModel) -> Seq<char> {
    match m {
        ValModel::Text(s) => seq!['"'] + escape_text(s) + seq!['"'],
        _ => scalar_raw_text(m),
    }
}

pub open spec fn contains_quote(s: Seq<char>) -> bool {
    exists|i: int| 0 <= i < s.len() && s[i] == '"'
}

/// How one field is read back: a blank field is `Null`; a quoted field is
/// the unescaped text; anything else with a stray quote is malformed; the
/// rest goes through scalar inference.
pub open spec fn cell_parse(f: Seq<char>) -> Option<ValModel> {
    let t = trim_blanks(f);
    if t.len() == 0 {
        Some(ValModel::Null)
    } else if t[0] == '"' {
        if t.len() >= 2 && t.last() == '"' {
            match unescape_text(t.subrange(1, t.len() - 1)) {
                Some(u) => Some(ValModel::Text(u)),
                None => None,
            }
        } else {
            None
        }
    } else if contains_quote(t) {
        None
    } else {
        Some(spec_infer(t))
    }
}

// ---------------------------------------------------------------------------
// The document grammar and the two directions' specifications.
// ---------------------------------------------------------------------------

/// Fields joined by the delimiter.
pub open spec fn join_fields(cells: Seq<Seq<char>>) -> Seq<char>
    decreases cells.len(),
{
    if cells.len() == 0 {
        Seq::empty()
    } else if cells.len() == 1 {
        cells[0]
    } else {
        join_fields(cells.drop_last()) + seq![','] + cells.last()
    }
}

/// The key list of a record, in its own order.
pub open spec fn record_keys(entries: Seq<(Seq<char>, ValModel)>) -> Seq<Seq<char>> {
    Seq::new(entries.len(), |i: int| entries[i].0)
}

/// A column name the row format can carry and read back unchanged: free of
/// the delimiter, quote, escape and line-break characters.
pub open spec fn plain_key(k: Seq<char>) -> bool {
    forall|i: int|
        0 <= i < k.len() ==> !(#[trigger] k[i] == ',' || k[i] == '"' || k[i] == '\\' || k[i]
            == '\n' || k[i] == '\r')
}

/// No two names in the list are the same.
pub open spec fn names_distinct(h: Seq<Seq<char>>) -> bool {
    forall|i: int, j: int| 0 <= i < j < h.len() ==> h[i] != h[j]
}

/// One record fits the header: same number of columns, every header column
/// present, its own keys unique, and every value a scalar.
pub open spec fn record_ok(header: Seq<Seq<char>>, entries: Seq<(Seq<char>, ValModel)>) -> bool {
    &&& entries.len() == header.len()
    &&& crate::value::model_keys_unique(entries)
    &&& (forall|j: int|
        0 <= j < header.len() ==> crate::value::model_map_has_key(entries, #[trigger] header[j]))
    &&& (forall|j: int|
        0 <= j < header.len() ==> is_scalar_model(
            crate::value::model_map_get(entries, #[trigger] header[j])->Some_0,
        ))
}

/// What the row serializer accepts: a sequence of uniform flat records. The
/// column list comes from the first record; it must not be empty, its names
/// must be distinct and plain, and every record must carry exactly those
/// columns with scalar values.
pub open spec fn rows_serializable(m: ValModel) -> bool {
    &&& m is Sequence
    &&& (forall|i: int|
        0 <= i < m->Sequence_0.len() ==> (#[trigger] m->Sequence_0[i]) is Mapping)
    &&& (m->Sequence_0.len() > 0 ==> {
        let header = record_keys(m->Sequence_0[0]->Mapping_0);
        &&& header.len() >= 1
        &&& names_distinct(header)
        &&& (forall|j: int| 0 <= j < header.len() ==> plain_key(#[trigger] header[j]))
        &&& (forall|i: int|
            0 <= i < m->Sequence_0.len() ==> record_ok(
                header,
                (#[trigger] m->Sequence_0[i])->Mapping_0,
            ))
    })
}

/// The cell texts of one record, in header order.
pub open spec fn record_cell_texts(
    header: Seq<Seq<char>>,
    entries: Seq<(Seq<char>, ValModel)>,
) -> Seq<Seq<char>> {
    Seq::new(
        header.len(),
        |j: int| cell_text(crate::value::model_map_get(entries, header[j])->Some_0),
    )
}

/// The record lines of the document, each ended by a newline.
pub open spec fn rows_body_text(records: Seq<ValModel>, header: Seq<Seq<char>>, i: int) -> Seq<
    char,
>
    decreases records.len() - i,
{
    if i < 0 || i >= records.len() {
        Seq::empty()
    } else {
        join_fields(record_cell_texts(header, records[i]->Mapping_0)) + seq!['\n']
            + rows_body_text(records, header, i + 1)
    }
}

/// The whole row document: a header line, then one line per record, each
/// ended by a newline; an empty sequence gives empty output.
pub open spec fn rows_text(m: ValModel) -> Seq<char> {
    let records = m->Sequence_0;
    if records.len() == 0 {
        Seq::empty()
    } else {
        let header = record_keys(records[0]->Mapping_0);
        join_fields(header) + seq!['\n'] + rows_body_text(records, header, 0)
    }
}

/// Reads each field of a row into a scalar.
pub open spec fn parse_cells(fields: Seq<Seq<char>>) -> Option<Seq<ValModel>>
    decreases fields.len(),
{
    if fields.len() == 0 {
        Some(Seq::empty())
    } else {
        match parse_cells(fields.drop_last()) {
            None => None,
            Some(pre) => match cell_parse(fields.last()) {
                None => None,
                Some(m) => Some(pre.push(m)),
            },
        }
    }
}

/// Pairs the header's names with one row's cells.
pub open spec fn zip_record(header: Seq<Seq<char>>, cells: Seq<ValModel>) -> Seq<
    (Seq<char>, ValModel),
> {
    Seq::new(header.len(), |j: int| (header[j], cells[j]))
}

/// Reads the record lines after the header; a bad row fails the whole parse
/// with its line index.
pub open spec fn parse_rows_rec(
    lines: Seq<Seq<char>>,
    header: Seq<Seq<char>>,
    i: int,
    acc: Seq<ValModel>,
) -> Result<ValModel, StructuralError>
    decreases lines.len() - i,
{
    if i < 1 || i >= lines.len() {
        Ok(ValModel::Sequence(acc))
    } else {
        match split_fields(lines[i]) {
            None => Err(StructuralError::Malformed(i as usize)),
            Some(fields) => if fields.len() != header.len() {
                Err(StructuralError::Malformed(i as usize))
            } else {
                match parse_cells(fields) {
                    None => Err(StructuralError::Malformed(i as usize)),
                    Some(cells) => parse_rows_rec(
                        lines,
                        header,
                        i + 1,
                        acc.push(ValModel::Mapping(zip_record(header, cells))),
                    ),
                }
            },
        }
    }
}

/// The row parse of a whole text: the first line fixes the column names
/// (which must be distinct); every following line must supply one cell per
/// column; empty input is the empty sequence.
pub open spec fn parse_rows_model(s: Seq<char>) -> Result<ValModel, StructuralError> {
    let lines = split_lines(s);
    if lines.len() == 0 {
        Ok(ValModel::Sequence(Seq::empty()))
    } else {
        match split_fields(lines[0]) {
            None => Err(StructuralError::Malformed(0)),
            Some(header) => if !names_distinct(header) {
                Err(StructuralError::Malformed(0))
            } else {
                parse_rows_rec(lines, header, 1, Seq::empty())
            },
        }
    }
}

/// The byte-level row parse: an encoding error on invalid UTF-8, otherwise
/// the text-level parse of the decoded characters.
pub open spec fn rows_parse_result(bytes: Seq<u8>) -> Result<ValModel, StructuralError> {
    if !vstd::utf8::valid_utf8(bytes) {
        Err(StructuralError::Encoding)
    } else {
        parse_rows_model(vstd::utf8::decode_utf8(bytes))
    }
}

// ---------------------------------------------------------------------------
// Executable parsing.
// ---------------------------------------------------------------------------

/// The character sequences of a list of character vectors.
pub open spec fn lines_view(vs: Seq<Vec<char>>) -> Seq<Seq<char>> {
    Seq::new(vs.len(), |i: int| vs[i]@)
}

/// Splits the text into its lines.
#[verifier::loop_isolation(false)]
pub(crate) fn split_text_lines(v: &Vec<char>) -> (r: Vec<Vec<char>>)
    ensures
        lines_view(r@) == split_lines(v@),
{
    let n = v.len();
    let mut acc: Vec<Vec<char>> = Vec::new();
    let mut cur: Vec<char> = Vec::new();
    proof {
        assert(lines_view(acc@) =~= Seq::<Seq<char>>::empty());
        assert(cur@ =~= Seq::<char>::empty());
    }
    let mut i: usize = 0;
    while i < n
        invariant
            i <= n,
            split_lines_rec(v@, i as int, cur@, lines_view(acc@)) == split_lines(v@),
        decreases n - i,
    {
        let c = v[i];
        if c == '\n' {
            let ghost pre = cur@;
            if cur.len() > 0 && cur[cur.len() - 1] == '\r' {
                cur.pop();
            }
            proof {
                assert(cur@ == strip_cr(pre));
            }
            let ghost accpre = lines_view(acc@);
            acc.push(cur);
            proof {
                assert(lines_view(acc@) =~= accpre.push(strip_cr(pre)));
            }
            cur = Vec::new();
            proof {
                assert(cur@ =~= Seq::<char>::empty());
            }
        } else {
            cur.push(c);
        }
        i = i + 1;
    }
    if cur.len() > 0 {
        let ghost pre = cur@;
        if cur[cur.len() - 1] == '\r' {
            cur.pop();
        }
        proof {
            assert(cur@ == strip_cr(pre));
        }
        let ghost accpre = lines_view(acc@);
        acc.push(cur);
        proof {
            assert(lines_view(acc@) =~= accpre.push(strip_cr(pre)));
        }
    }
    acc
}

/// Splits one line into its raw fields.
#[verifier::loop_isolation(false)]
pub(crate) fn split_line_fields(line: &Vec<char>) -> (r: Option<Vec<Vec<char>>>)
    ensures
        match r {
            Some(fields) => split_fields(line@) == Some(lines_view(fields@)),
            None => split_fields(line@) is None,
        },
{
    let n = line.len();
    let mut acc: Vec<Vec<char>> = Vec::new();
    let mut cur: Vec<char> = Vec::new();
    proof {
        assert(lines_view(acc@) =~= Seq::<Seq<char>>::empty());
        assert(cur@ =~= Seq::<char>::empty());
    }
    let mut in_q = false;
    let mut esc = false;
    let mut i: usize = 0;
    while i < n
        invariant
            i <= n,
            !in_q ==> !esc,
            split_fields_rec(line@, i as int, cur@, in_q, esc, lines_view(acc@)) == split_fields(
                line@,
            ),
        decreases n - i,
    {
        let c = line[i];
        let ghost cur0 = cur@;
        let ghost inq0 = in_q;
        let ghost esc0 = esc;
        let ghost acc0 = lines_view(acc@);
        let ghost gi = i as int;
        if in_q {
            if esc {
                cur.push(c);
                esc = false;
            } else if c == '\\' {
                cur.push(c);
                esc = true;
            } else if c == '"' {
                cur.push(c);
                in_q = false;
            } else {
                cur.push(c);
            }
            proof {
                assert(split_fields_rec(line@, gi, cur0, inq0, esc0, acc0) == split_fields_rec(
                    line@,
                    gi + 1,
                    cur@,
                    in_q,
                    esc,
                    lines_view(acc@),
                ));
            }
        } else {
            if c == ',' {
                let ghost accpre = lines_view(acc@);
                let ghost pre = cur@;
                acc.push(cur);
                proof {
                    assert(lines_view(acc@) =~= accpre.push(pre));
                }
                cur = Vec::new();
                proof {
                    assert(cur@ =~= Seq::<char>::empty());
                }
            } else if c == '"' {
                cur.push(c);
                in_q = true;
            } else {
                cur.push(c);
            }
            proof {
                assert(split_fields_rec(line@, gi, cur0, inq0, esc0, acc0) == split_fields_rec(
                    line@,
                    gi + 1,
                    cur@,
                    in_q,
                    esc,
                    lines_view(acc@),
                ));
            }
        }
        i = i + 1;
    }
    if in_q {
        return None;
    }
    let ghost accpre = lines_view(acc@);
    let ghost pre = cur@;
    acc.push(cur);
    proof {
        assert(lines_view(acc@) =~= accpre.push(pre));
    }
    Some(acc)
}

/// Decodes the interior of a quoted field.
fn unescape_range(f: &Vec<char>, i: usize, end: usize) -> (r: Option<Vec<char>>)
    requires
        i <= end <= f@.len(),
    ensures
        match r {
            Some(u) => unescape_text(f@.subrange(i as int, end as int)) == Some(u@),
            None => unescape_text(f@.subrange(i as int, end as int)) is None,
        },
    decreases end - i,
{
    let ghost s = f@.subrange(i as int, end as int);
    if i == end {
        proof {
            assert(s =~= Seq::<char>::empty());
        }
        return Some(Vec::new());
    }
    let c = f[i];
    proof {
        assert(s[0] == c);
    }
    if c == '\\' {
        if end - i < 2 {
            return None;
        }
        let e = f[i + 1];
        proof {
            assert(s[1] == e);
        }
        let ch: char = if e == '"' {
            '"'
        } else if e == '\\' {
            '\\'
        } else if e == 'n' {
            '\n'
        } else if e == 'r' {
            '\r'
        } else if e == 't' {
            '\t'
        } else {
            return None;
        };
        match unescape_range(f, i + 2, end) {
            None => {
                proof {
                    assert(s.skip(2) =~= f@.subrange(i + 2, end as int));
                }
                None
            },
            Some(mut rest) => {
                proof {
                    assert(s.skip(2) =~= f@.subrange(i + 2, end as int));
                }
                let ghost restpre = rest@;
                rest.insert(0, ch);
                proof {
                    assert(rest@ =~= seq![ch] + restpre);
                }
                Some(rest)
            },
        }
    } else if c == '"' {
        None
    } else {
        match unescape_range(f, i + 1, end) {
            None => {
                proof {
                    assert(s.skip(1) =~= f@.subrange(i + 1, end as int));
                }
                None
            },
            Some(mut rest) => {
                proof {
                    assert(s.skip(1) =~= f@.subrange(i + 1, end as int));
                }
                let ghost restpre = rest@;
                rest.insert(0, c);
                proof {
                    assert(rest@ =~= seq![c] + restpre);
                }
                Some(rest)
            },
        }
    }
}

/// Whether the character is a blank of the cell grammar.
fn is_blank_exec(c: char) -> (r: bool)
    ensures
        r == is_blank_char(c),
{
    c == ' ' || c == '\t' || c == '\n' || c == '\r'
}

/// Reads one raw field into a scalar, per the cell grammar.
#[verifier::loop_isolation(false)]
pub(crate) fn parse_cell_vec(f: &Vec<char>) -> (r: Option<Value>)
    ensures
        match r {
            Some(v) => cell_parse(f@) == Some(v@) && crate::value::model_wf(v@)
                && is_scalar_model(v@),
            None => cell_parse(f@) is None,
        },
{
    let n = f.len();
    let mut a: usize = 0;
    while a < n && is_blank_exec(f[a])
        invariant
            a <= n,
            forall|j: int| 0 <= j < a ==> is_blank_char(#[trigger] f@[j]),
        decreases n - a,
    {
        a = a + 1;
    }
    let mut b: usize = n;
    while b > a && is_blank_exec(f[b - 1])
        invariant
            a <= b <= n,
            forall|j: int| b <= j < n ==> is_blank_char(#[trigger] f@[j]),
        decreases b,
    {
        b = b - 1;
    }
    let ghost t = trim_blanks(f@);
    proof {
        lemma_trim_front_skip(f@, a as int);
        let tf = f@.skip(a as int);
        lemma_trim_back_take(tf, b - a);
        assert(t == tf.take(b - a));
        assert(t =~= f@.subrange(a as int, b as int));
    }
    if a == b {
        proof {
            assert(t.len() == 0);
        }
        return Some(Value::Null);
    }
    proof {
        assert(t[0] == f@[a as int]);
        assert(t.len() == b - a);
    }
    if f[a] == '"' {
        if b - a >= 2 && f[b - 1] == '"' {
            proof {
                assert(t.last() == f@[b - 1]);
                assert(t.subrange(1, t.len() - 1) =~= f@.subrange(a + 1 as int, b - 1 as int));
            }
            match unescape_range(f, a + 1, b - 1) {
                Some(u) => {
                    let text = crate::text::string_of_chars(&u);
                    Some(Value::Text(text))
                },
                None => None,
            }
        } else {
            proof {
                if t.len() >= 2 {
                    assert(t.last() == f@[b - 1]);
                }
            }
            None
        }
    } else {
        let mut j = a;
        while j < b
            invariant
                a <= j <= b,
                forall|k: int| a <= k < j ==> f@[k] != '"',
            decreases b - j,
        {
            if f[j] == '"' {
                proof {
                    assert(t[j - a] == '"');
                    assert(contains_quote(t));
                }
                return None;
            }
            j = j + 1;
        }
        proof {
            assert(!contains_quote(t)) by {
                if contains_quote(t) {
                    let k = choose|k: int| 0 <= k < t.len() && t[k] == '"';
                    assert(f@[a + k] == '"');
                }
            }
        }
        let val = crate::scalar::infer_scalar_range(f, a, b);
        Some(val)
    }
}

/// If any field fails the cell grammar, the whole row fails.
proof fn lemma_parse_cells_fail(fs: Seq<Seq<char>>, k: int)
    requires
        0 <= k < fs.len(),
        cell_parse(fs[k]) is None,
    ensures
        parse_cells(fs) is None,
    decreases fs.len(),
{
    if fs.len() > 0 {
        if k == fs.len() - 1 {
            assert(fs.last() == fs[k]);
        } else {
            lemma_parse_cells_fail(fs.drop_last(), k);
        }
    }
}

/// Whether all names in the list are distinct.
#[verifier::loop_isolation(false)]
pub(crate) fn check_distinct(names: &Vec<Vec<char>>) -> (r: bool)
    ensures
        r == names_distinct(lines_view(names@)),
{
    let n = names.len();
    let mut i: usize = 0;
    while i < n
        invariant
            i <= n,
            forall|p: int, q: int| 0 <= p < q < i ==> lines_view(names@)[p] != lines_view(names@)[q],
        decreases n - i,
    {
        let mut j: usize = 0;
        while j < i
            invariant
                j <= i < n,
                forall|p: int, q: int|
                    0 <= p < q < i ==> lines_view(names@)[p] != lines_view(names@)[q],
                forall|q: int| 0 <= q < j ==> lines_view(names@)[q] != lines_view(names@)[i as int],
            decreases i - j,
        {
            if crate::text::chars_eq(&names[j], &names[i]) {
                proof {
                    assert(lines_view(names@)[j as int] == lines_view(names@)[i as int]);
                }
                return false;
            }
            j = j + 1;
        }
        assert forall|p: int, q: int| 0 <= p < q < i + 1 implies lines_view(names@)[p]
            != lines_view(names@)[q] by {
            if q == i as int {
                assert(lines_view(names@)[p] != lines_view(names@)[q]);
            }
        }
        i = i + 1;
    }
    true
}

/// Row-and-header parse of a byte stream: the first line fixes the column
/// names; every later line is one record, each cell scalar-inferred; any
/// encoding fault, unterminated quote, duplicate column name or ragged row
/// fails the whole conversion with the offending line's index, and no
/// partial record list is ever returned.
#[verifier::loop_isolation(false)]
pub fn parse_tabular_rows(input: &[u8]) -> (r: Result<Value, StructuralError>)
    ensures
        match r {
            Ok(v) => rows_parse_result(input@) == Ok::<ValModel, StructuralError>(v@)
                && crate::value::model_wf(v@),
            Err(e) => rows_parse_result(input@) == Err::<ValModel, StructuralError>(e),
        },
{
    let s = match crate::text::str_of_bytes(input) {
        Some(s) => s,
        None => {
            return Err(StructuralError::Encoding);
        },
    };
    let chars = crate::text::chars_of_str(s);
    let lines = split_text_lines(&chars);
    let ghost glines = split_lines(chars@);
    let nl = lines.len();
    if nl == 0 {
        let empty_items: Vec<Value> = Vec::new();
        let ghost gitems: Vec<Value> = empty_items;
        let out = Value::Sequence(empty_items);
        proof {
            crate::value::lemma_sequence_view(gitems);
            assert(crate::value::values_view(gitems@) =~= Seq::<ValModel>::empty());
        }
        return Ok(out);
    }
    let header = match split_line_fields(&lines[0]) {
        Some(h) => h,
        None => {
            return Err(StructuralError::Malformed(0));
        },
    };
    let ghost gheader = lines_view(header@);
    if !check_distinct(&header) {
        return Err(StructuralError::Malformed(0));
    }
    let nh = header.len();
    let mut out: Vec<Value> = Vec::new();
    let ghost gacc = Seq::<ValModel>::empty();
    let mut li: usize = 1;
    while li < nl
        invariant
            1 <= li <= nl,
            out@.len() == li - 1,
            parse_rows_rec(glines, gheader, li as int, gacc) == parse_rows_rec(
                glines,
                gheader,
                1,
                Seq::empty(),
            ),
            gacc =~= crate::value::values_view(out@),
            forall|i: int| 0 <= i < out@.len() ==> crate::value::model_wf(#[trigger] out@[i]@),
        decreases nl - li,
    {
        let fields = match split_line_fields(&lines[li]) {
            Some(fs) => fs,
            None => {
                return Err(StructuralError::Malformed(li));
            },
        };
        let ghost gfields = lines_view(fields@);
        if fields.len() != nh {
            return Err(StructuralError::Malformed(li));
        }
        let nf = fields.len();
        let mut record: Vec<(String, Value)> = Vec::new();
        let ghost mut gcells = Seq::<ValModel>::empty();
        let mut fi: usize = 0;
        while fi < nf
            invariant
                fi <= nf,
                nf == nh == header@.len() == gfields.len(),
                record@.len() == fi,
                gcells.len() == fi,
                parse_cells(gfields.take(fi as int)) == Some(gcells),
                forall|i: int|
                    0 <= i < gcells.len() ==> crate::value::model_wf(#[trigger] gcells[i])
                        && is_scalar_model(gcells[i]),
                forall|i: int|
                    0 <= i < fi ==> #[trigger] record@[i].0@ == gheader[i] && record@[i].1@
                        == gcells[i],
            decreases nf - fi,
        {
            let cell = match parse_cell_vec(&fields[fi]) {
                Some(c) => c,
                None => {
                    proof {
                        lemma_parse_cells_fail(gfields, fi as int);
                    }
                    return Err(StructuralError::Malformed(li));
                },
            };
            let key = crate::text::string_of_chars(&header[fi]);
            proof {
                assert(gfields.take(fi + 1 as int).drop_last() =~= gfields.take(fi as int));
                assert(gfields.take(fi + 1 as int).last() == gfields[fi as int]);
                gcells = gcells.push(cell@);
            }
            record.push((key, cell));
            fi = fi + 1;
        }
        proof {
            assert(gfields.take(nf as int) =~= gfields);
        }
        let ghost grecord: Vec<(String, Value)> = record;
        let rec = Value::Mapping(record);
        proof {
            crate::value::lemma_mapping_view(grecord);
            let entries = crate::value::entries_view(record@);
            assert forall|j: int| 0 <= j < entries.len() implies entries[j] == zip_record(
                gheader,
                gcells,
            )[j] by {
                assert(record@[j].0@ == gheader[j]);
                assert(record@[j].1@ == gcells[j]);
            }
            assert(entries =~= zip_record(gheader, gcells));
            assert(rec@ == ValModel::Mapping(zip_record(gheader, gcells)));
            assert(crate::value::model_keys_unique(entries)) by {
                assert forall|p: int, q: int| 0 <= p < q < entries.len() implies entries[p].0
                    != entries[q].0 by {
                    assert(gheader[p] != gheader[q]);
                }
            }
            assert(crate::value::model_wf(rec@));
        }
        let ghost gaccpre = gacc;
        proof {
            gacc = gacc.push(rec@);
        }
        out.push(rec);
        proof {
            assert(gacc =~= crate::value::values_view(out@));
            assert(parse_rows_rec(glines, gheader, li + 1 as int, gacc) == parse_rows_rec(
                glines,
                gheader,
                li as int,
                gaccpre,
            ));
        }
        li = li + 1;
    }
    let ghost gout: Vec<Value> = out;
    let res = Value::Sequence(out);
    proof {
        crate::value::lemma_sequence_view(gout);
        assert(crate::value::values_view(gout@) =~= gacc);
        assert(parse_rows_rec(glines, gheader, nl as int, gacc) == Ok::<ValModel, StructuralError>(
            ValModel::Sequence(gacc),
        ));
        assert forall|i: int| 0 <= i < gacc.len() implies crate::value::model_wf(
            #[trigger] gacc[i],
        ) by {
            assert(gacc[i] == crate::value::values_view(gout@)[i]);
            assert(gacc[i] == gout@[i]@);
        }
        assert(crate::value::model_wf(res@));
    }
    Ok(res)
}

// ---------------------------------------------------------------------------
// Executable serialization.
// ---------------------------------------------------------------------------

/// Escaping one more character appends its escaped form.
proof fn lemma_escape_snoc(s: Seq<char>, c: char)
    ensures
        escape_text(s.push(c)) == escape_text(s) + escape_char(c),
    decreases s.len(),
{
    if s.len() == 0 {
        assert(s.push(c).drop_first() =~= s);
        assert(s.push(c)[0] == c);
        assert(escape_text(s.push(c)) == escape_char(c) + escape_text(s));
        assert(escape_char(c) + escape_text(s) =~= escape_char(c));
        assert(escape_text(s) + escape_char(c) =~= escape_char(c));
    } else {
        lemma_escape_snoc(s.drop_first(), c);
        assert(s.push(c).drop_first() =~= s.drop_first().push(c));
        assert(s.push(c)[0] == s[0]);
        assert(escape_text(s.push(c)) == escape_char(s[0]) + (escape_text(s.drop_first())
            + escape_char(c)));
        assert(escape_char(s[0]) + (escape_text(s.drop_first()) + escape_char(c)) =~= (escape_char(
            s[0],
        ) + escape_text(s.drop_first())) + escape_char(c));
    }
}

/// Appends the escaped form of a text.
#[verifier::loop_isolation(false)]
fn push_escaped(out: &mut Vec<char>, s: &Vec<char>)
    ensures
        final(out)@ == old(out)@ + escape_text(s@),
{
    let n = s.len();
    let mut i: usize = 0;
    proof {
        assert(escape_text(s@.take(0)) =~= Seq::<char>::empty());
        assert(out@ =~= out@ + escape_text(s@.take(0)));
    }
    while i < n
        invariant
            i <= n,
            out@ == old(out)@ + escape_text(s@.take(i as int)),
        decreases n - i,
    {
        let c = s[i];
        if c == '"' || c == '\\' {
            out.push('\\');
            out.push(c);
        } else if c == '\n' {
            out.push('\\');
            out.push('n');
        } else if c == '\r' {
            out.push('\\');
            out.push('r');
        } else if c == '\t' {
            out.push('\\');
            out.push('t');
        } else {
            out.push(c);
        }
        proof {
            lemma_escape_snoc(s@.take(i as int), c);
            assert(s@.take(i + 1 as int) =~= s@.take(i as int).push(c));
            assert(out@ =~= old(out)@ + escape_text(s@.take(i + 1 as int)));
        }
        i = i + 1;
    }
    proof {
        assert(s@.take(n as int) =~= s@);
    }
}

/// Appends the cell text of one scalar.
pub(crate) fn push_cell(out: &mut Vec<char>, v: &Value)
    requires
        is_scalar_model(v@),
    ensures
        final(out)@ == old(out)@ + cell_text(v@),
{
    match v {
        Value::Text(s) => {
            let cs = crate::text::chars_of_str(s.as_str());
            out.push('"');
            push_escaped(out, &cs);
            out.push('"');
            proof {
                assert(out@ =~= old(out)@ + (seq!['"'] + escape_text(s@) + seq!['"']));
            }
        },
        _ => {
            let mut cs = crate::scalar::render_scalar(v);
            out.append(&mut cs);
        },
    }
}

/// Joining one more field appends a delimiter (unless it is the first) and
/// the field.
pub(crate) proof fn lemma_join_snoc(cells: Seq<Seq<char>>, c: Seq<char>)
    ensures
        cells.len() == 0 ==> join_fields(cells.push(c)) == c,
        cells.len() > 0 ==> join_fields(cells.push(c)) == join_fields(cells) + seq![','] + c,
{
    let p = cells.push(c);
    if cells.len() == 0 {
        assert(p.len() == 1);
        assert(p[0] == c);
    } else {
        assert(p.drop_last() =~= cells);
        assert(p.last() == c);
    }
}

/// Serializes a sequence of uniform flat records as delimited rows under a
/// header: the column list is the first record's keys in order; every record
/// is rendered in that column order; a sequence whose element is not a map, a
/// record that does not carry exactly the header's columns, a non-scalar
/// cell, a duplicate or non-plain column name, or an empty column list is a
/// shape mismatch, and nothing is emitted.
#[verifier::loop_isolation(false)]
pub fn serialize_tabular_rows(v: &Value) -> (r: Result<Vec<u8>, StructuralError>)
    ensures
        rows_serializable(v@) ==> (r matches Ok(bytes) && bytes@ == vstd::utf8::encode_utf8(
            rows_text(v@),
        )),
        !rows_serializable(v@) ==> r == Err::<Vec<u8>, StructuralError>(
            StructuralError::ShapeMismatch,
        ),
{
    let records = match v {
        Value::Sequence(items) => items,
        _ => {
            return Err(StructuralError::ShapeMismatch);
        },
    };
    let ghost grecords = v@->Sequence_0;
    proof {
        assert(grecords =~= crate::value::values_view(records@));
    }
    let nr = records.len();
    if nr == 0 {
        let out: Vec<u8> = Vec::new();
        proof {
            assert(out@ =~= vstd::utf8::encode_utf8(rows_text(v@)));
        }
        return Ok(out);
    }
    let first_entries = match &records[0] {
        Value::Mapping(es) => es,
        _ => {
            proof {
                assert(!(grecords[0] is Mapping));
            }
            return Err(StructuralError::ShapeMismatch);
        },
    };
    let ghost gheader = record_keys(crate::value::entries_view(first_entries@));
    proof {
        assert(grecords[0]->Mapping_0 =~= crate::value::entries_view(first_entries@));
        assert(record_keys(grecords[0]->Mapping_0) =~= gheader);
    }
    let nh = first_entries.len();
    if nh == 0 {
        return Err(StructuralError::ShapeMismatch);
    }
    // Collect and check the column names.
    let mut header: Vec<Vec<char>> = Vec::new();
    let mut hi: usize = 0;
    while hi < nh
        invariant
            hi <= nh,
            nh == first_entries@.len(),
            gheader.len() == nh,
            header@.len() == hi,
            forall|j: int| 0 <= j < hi ==> #[trigger] header@[j]@ == gheader[j],
            forall|j: int| 0 <= j < hi ==> plain_key(#[trigger] gheader[j]),
        decreases nh - hi,
    {
        let name = crate::text::chars_of_str(first_entries[hi].0.as_str());
        let mut ci: usize = 0;
        let nn = name.len();
        while ci < nn
            invariant
                ci <= nn,
                nn == name@.len(),
                forall|k: int|
                    0 <= k < ci ==> !(#[trigger] name@[k] == ',' || name@[k] == '"' || name@[k]
                        == '\\' || name@[k] == '\n' || name@[k] == '\r'),
            decreases nn - ci,
        {
            let c = name[ci];
            if c == ',' || c == '"' || c == '\\' || c == '\n' || c == '\r' {
                proof {
                    assert(!plain_key(gheader[hi as int]));
                }
                return Err(StructuralError::ShapeMismatch);
            }
            ci = ci + 1;
        }
        proof {
            assert(plain_key(gheader[hi as int]));
        }
        header.push(name);
        hi = hi + 1;
    }
    if !check_distinct(&header) {
        proof {
            assert(lines_view(header@) =~= gheader);
        }
        return Err(StructuralError::ShapeMismatch);
    }
    proof {
        assert(lines_view(header@) =~= gheader);
        assert(names_distinct(gheader));
    }
    // Emit the header line.
    let mut out: Vec<char> = Vec::new();
    let ghost mut emitted_cells = Seq::<Seq<char>>::empty();
    let mut hj: usize = 0;
    while hj < nh
        invariant
            hj <= nh,
            nh == header@.len(),
            emitted_cells =~= gheader.take(hj as int),
            out@ == join_fields(emitted_cells),
            hj == 0 ==> out@.len() == 0,
            hj > 0 ==> emitted_cells.len() > 0,
        decreases nh - hj,
    {
        proof {
            lemma_join_snoc(emitted_cells, gheader[hj as int]);
        }
        if hj > 0 {
            out.push(',');
        }
        let mut name_copy = crate::scalar::copy_range(&header[hj], 0, header[hj].len());
        proof {
            assert(name_copy@ =~= gheader[hj as int]);
        }
        out.append(&mut name_copy);
        proof {
            emitted_cells = emitted_cells.push(gheader[hj as int]);
            assert(emitted_cells =~= gheader.take(hj + 1 as int));
            if hj > 0 {
                assert(out@ =~= join_fields(emitted_cells));
            } else {
                assert(out@ =~= join_fields(emitted_cells));
            }
        }
        hj = hj + 1;
    }
    proof {
        assert(gheader.take(nh as int) =~= gheader);
    }
    out.push('\n');
    let ghost doc_prefix = join_fields(gheader) + seq!['\n'];
    proof {
        assert(out@ =~= doc_prefix);
        assert(out@ + rows_body_text(grecords, gheader, 0) =~= doc_prefix + rows_body_text(
            grecords,
            gheader,
            0,
        ));
    }
    // Emit the record lines.
    let mut ri: usize = 0;
    while ri < nr
        invariant
            ri <= nr,
            nr == records@.len(),
            grecords =~= crate::value::values_view(records@),
            gheader.len() == nh,
            out@ + rows_body_text(grecords, gheader, ri as int) == doc_prefix + rows_body_text(
                grecords,
                gheader,
                0,
            ),
            forall|i: int|
                0 <= i < ri ==> (#[trigger] grecords[i]) is Mapping && record_ok(
                    gheader,
                    grecords[i]->Mapping_0,
                ),
        decreases nr - ri,
    {
        let entries = match &records[ri] {
            Value::Mapping(es) => es,
            _ => {
                proof {
                    assert(!(grecords[ri as int] is Mapping));
                }
                return Err(StructuralError::ShapeMismatch);
            },
        };
        let ghost gentries = crate::value::entries_view(entries@);
        proof {
            assert(grecords[ri as int]->Mapping_0 =~= gentries);
        }
        if entries.len() != nh {
            proof {
                assert(!record_ok(gheader, gentries));
            }
            return Err(StructuralError::ShapeMismatch);
        }
        // Check this record's own keys are unique.
        let mut own_keys: Vec<Vec<char>> = Vec::new();
        let mut ki: usize = 0;
        while ki < nh
            invariant
                ki <= nh,
                nh == entries@.len(),
                own_keys@.len() == ki,
                forall|j: int| 0 <= j < ki ==> #[trigger] own_keys@[j]@ == gentries[j].0,
            decreases nh - ki,
        {
            let k = crate::text::chars_of_str(entries[ki].0.as_str());
            own_keys.push(k);
            ki = ki + 1;
        }
        if !check_distinct(&own_keys) {
            proof {
                let ks = lines_view(own_keys@);
                let d = choose|p: int, q: int| 0 <= p < q < ks.len() && ks[p] == ks[q];
                assert(gentries[d.0].0 == gentries[d.1].0);
                assert(!crate::value::model_keys_unique(gentries));
                assert(!record_ok(gheader, gentries));
            }
            return Err(StructuralError::ShapeMismatch);
        }
        proof {
            let ks = lines_view(own_keys@);
            assert forall|p: int, q: int| 0 <= p < q < gentries.len() implies gentries[p].0
                != gentries[q].0 by {
                assert(ks[p] == gentries[p].0 && ks[q] == gentries[q].0);
            }
        }
        // Render the cells in header order.
        let ghost gcells = record_cell_texts(gheader, gentries);
        let ghost line_start = out@;
        let ghost mut emitted = Seq::<Seq<char>>::empty();
        let mut cj: usize = 0;
        while cj < nh
            invariant
                cj <= nh,
                nh == header@.len() == first_entries@.len(),
                gheader.len() == nh,
                gcells == record_cell_texts(gheader, gentries),
                emitted =~= gcells.take(cj as int),
                out@ == line_start + join_fields(emitted),
                cj == 0 ==> emitted.len() == 0 && out@ == line_start,
                forall|j: int|
                    0 <= j < cj ==> crate::value::model_map_has_key(
                        gentries,
                        #[trigger] gheader[j],
                    ) && is_scalar_model(
                        crate::value::model_map_get(gentries, gheader[j])->Some_0,
                    ),
            decreases nh - cj,
        {
            let key = first_entries[cj].0.as_str();
            proof {
                assert(key@ == gheader[cj as int]);
            }
            let cell = match crate::value::map_get(entries, key) {
                Some(c) => c,
                None => {
                    proof {
                        crate::value::lemma_map_index_of(gentries, key@);
                        assert(!crate::value::model_map_has_key(gentries, gheader[cj as int]));
                        assert(!record_ok(gheader, gentries));
                    }
                    return Err(StructuralError::ShapeMismatch);
                },
            };
            if !crate::scalar::is_scalar_exec(cell) {
                proof {
                    crate::value::lemma_map_index_of(gentries, key@);
                    let ix = crate::value::model_map_index_of(gentries, key@);
                    assert(gentries[ix].1 == cell@);
                    assert(!is_scalar_model(gentries[ix].1));
                    assert(!record_ok(gheader, gentries));
                }
                return Err(StructuralError::ShapeMismatch);
            }
            proof {
                crate::value::lemma_map_index_of(gentries, key@);
                lemma_join_snoc(emitted, gcells[cj as int]);
                assert(gcells[cj as int] == cell_text(cell@));
            }
            if cj > 0 {
                out.push(',');
            }
            push_cell(&mut out, cell);
            proof {
                emitted = emitted.push(gcells[cj as int]);
                assert(emitted =~= gcells.take(cj + 1 as int));
                assert(out@ =~= line_start + join_fields(emitted));
            }
            cj = cj + 1;
        }
        proof {
            assert(gcells.take(nh as int) =~= gcells);
            assert(record_ok(gheader, gentries));
        }
        out.push('\n');
        proof {
            assert(rows_body_text(grecords, gheader, ri as int) == join_fields(gcells) + seq!['\n']
                + rows_body_text(grecords, gheader, ri + 1));
            assert(out@ =~= line_start + (join_fields(gcells) + seq!['\n']));
            assert(out@ + rows_body_text(grecords, gheader, ri + 1) =~= line_start + rows_body_text(
                grecords,
                gheader,
                ri as int,
            ));
            assert(line_start + rows_body_text(grecords, gheader, ri as int) =~= doc_prefix
                + rows_body_text(grecords, gheader, 0));
        }
        ri = ri + 1;
    }
    proof {
        assert(rows_body_text(grecords, gheader, nr as int) =~= Seq::<char>::empty());
        assert(out@ + rows_body_text(grecords, gheader, nr as int) =~= out@);
        assert(out@ =~= doc_prefix + rows_body_text(grecords, gheader, 0));
        assert(rows_serializable(v@));
        assert(out@ == rows_text(v@));
    }
    let bytes = crate::text::bytes_of_chars(&out);
    Ok(bytes)
}

// ---------------------------------------------------------------------------
// The round-trip law: parsing the serialized form of a uniform record
// sequence restores it exactly.
// ---------------------------------------------------------------------------

/// Forward formulation of `join_fields`, convenient for left-to-right
/// consumption.
pub open spec fn join_from(cells: Seq<Seq<char>>, k: int) -> Seq<char>
    decreases cells.len() - k,
{
    if k < 0 || k >= cells.len() {
        Seq::empty()
    } else if k == cells.len() - 1 {
        cells[k]
    } else {
        cells[k] + seq![','] + join_from(cells, k + 1)
    }
}

pub proof fn lemma_join_from(cells: Seq<Seq<char>>)
    ensures
        join_fields(cells) == join_from(cells, 0),
    decreases cells.len(),
{
    if cells.len() > 1 {
        lemma_join_from(cells.drop_last());
        lemma_join_from_snoc(cells.drop_last(), cells.last(), 0);
        assert(cells.drop_last().push(cells.last()) =~= cells);
    }
}

proof fn lemma_join_from_snoc(cells: Seq<Seq<char>>, c: Seq<char>, k: int)
    requires
        0 <= k <= cells.len(),
    ensures
        cells.len() > 0 && k < cells.len() ==> join_from(cells.push(c), k) == join_from(cells, k)
            + seq![','] + c,
        k == cells.len() ==> join_from(cells.push(c), k) == c,
    decreases cells.len() - k,
{
    if k < cells.len() {
        lemma_join_from_snoc(cells, c, k + 1);
        assert(cells.push(c)[k] == cells[k]);
        if k == cells.len() - 1 {
            assert(join_from(cells.push(c), k) == cells[k] + seq![','] + c);
        } else {
            assert((cells[k] + seq![','] + (join_from(cells, k + 1) + seq![','] + c)) =~= (cells[k]
                + seq![','] + join_from(cells, k + 1)) + seq![','] + c);
        }
    }
}

/// The escape image shape: escapes always pair, and a quote only stands
/// after an escape.
pub open spec fn wf_esc(e: Seq<char>) -> bool
    decreases e.len(),
{
    if e.len() == 0 {
        true
    } else if e[0] == '\\' {
        e.len() >= 2 && wf_esc(e.skip(2))
    } else {
        e[0] != '"' && e[0] != '\n' && e[0] != '\r' && wf_esc(e.skip(1))
    }
}

/// The escaped form of any text has the escape image shape.
pub proof fn lemma_escape_wf(s: Seq<char>)
    ensures
        wf_esc(escape_text(s)),
    decreases s.len(),
{
    if s.len() > 0 {
        lemma_escape_wf(s.drop_first());
        let e = escape_text(s);
        let c = s[0];
        if c == '"' || c == '\\' || c == '\n' || c == '\r' || c == '\t' {
            assert(e == escape_char(c) + escape_text(s.drop_first()));
            assert(e[0] == '\\');
            assert(e.len() >= 2);
            assert(e.skip(2) =~= escape_text(s.drop_first()));
        } else {
            assert(e == seq![c] + escape_text(s.drop_first()));
            assert(e[0] == c);
            assert(e.skip(1) =~= escape_text(s.drop_first()));
        }
    }
}

/// A field the splitter hands back unchanged: either raw (no delimiter or
/// quote) or fully quoted with a well-shaped interior.
pub open spec fn wf_field_text(f: Seq<char>) -> bool {
    ||| (forall|k: int| 0 <= k < f.len() ==> f[k] != ',' && #[trigger] f[k] != '"')
    ||| (f.len() >= 2 && f[0] == '"' && f.last() == '"' && wf_esc(f.subrange(1, f.len() - 1)))
}

/// Consuming a run of raw characters keeps the splitter in field state.
proof fn lemma_consume_raw(
    line: Seq<char>,
    i: int,
    j: int,
    cur: Seq<char>,
    acc: Seq<Seq<char>>,
)
    requires
        0 <= i <= j <= line.len(),
        forall|k: int| i <= k < j ==> line[k] != ',' && #[trigger] line[k] != '"',
    ensures
        split_fields_rec(line, i, cur, false, false, acc) == split_fields_rec(
            line,
            j,
            cur + line.subrange(i, j),
            false,
            false,
            acc,
        ),
    decreases j - i,
{
    if i < j {
        lemma_consume_raw(line, i + 1, j, cur.push(line[i]), acc);
        assert(cur.push(line[i]) + line.subrange(i + 1, j) =~= cur + line.subrange(i, j));
    } else {
        assert(cur + line.subrange(i, j) =~= cur);
    }
}

/// Consuming a well-shaped escape image keeps the splitter inside quotes.
proof fn lemma_consume_escaped(
    line: Seq<char>,
    i: int,
    j: int,
    cur: Seq<char>,
    acc: Seq<Seq<char>>,
)
    requires
        0 <= i <= j <= line.len(),
        wf_esc(line.subrange(i, j)),
    ensures
        split_fields_rec(line, i, cur, true, false, acc) == split_fields_rec(
            line,
            j,
            cur + line.subrange(i, j),
            true,
            false,
            acc,
        ),
    decreases j - i,
{
    let e = line.subrange(i, j);
    if i < j {
        if line[i] == '\\' {
            assert(e[0] == '\\');
            assert(e.len() >= 2);
            assert(e.skip(2) =~= line.subrange(i + 2, j));
            assert(split_fields_rec(line, i, cur, true, false, acc) == split_fields_rec(
                line,
                i + 1,
                cur.push(line[i]),
                true,
                true,
                acc,
            ));
            assert(split_fields_rec(line, i + 1, cur.push(line[i]), true, true, acc)
                == split_fields_rec(
                line,
                i + 2,
                cur.push(line[i]).push(line[i + 1]),
                true,
                false,
                acc,
            ));
            lemma_consume_escaped(line, i + 2, j, cur.push(line[i]).push(line[i + 1]), acc);
            assert(cur.push(line[i]).push(line[i + 1]) + line.subrange(i + 2, j) =~= cur
                + line.subrange(i, j));
        } else {
            assert(e[0] == line[i]);
            assert(line[i] != '"');
            assert(e.skip(1) =~= line.subrange(i + 1, j));
            lemma_consume_escaped(line, i + 1, j, cur.push(line[i]), acc);
            assert(cur.push(line[i]) + line.subrange(i + 1, j) =~= cur + line.subrange(i, j));
        }
    } else {
        assert(cur + e =~= cur);
    }
}

/// Consuming one well-shaped field ends with the field collected.
proof fn lemma_consume_field(line: Seq<char>, i: int, j: int, acc: Seq<Seq<char>>)
    requires
        0 <= i <= j <= line.len(),
        wf_field_text(line.subrange(i, j)),
    ensures
        split_fields_rec(line, i, Seq::empty(), false, false, acc) == split_fields_rec(
            line,
            j,
            line.subrange(i, j),
            false,
            false,
            acc,
        ),
{
    let f = line.subrange(i, j);
    if f.len() >= 2 && f[0] == '"' && f.last() == '"' && wf_esc(f.subrange(1, f.len() - 1)) {
        assert(line[i] == '"');
        assert(line[j - 1] == '"');
        assert(f.subrange(1, f.len() - 1) =~= line.subrange(i + 1, j - 1));
        lemma_consume_escaped(line, i + 1, j - 1, seq!['"'], acc);
        assert(seq!['"'] + line.subrange(i + 1, j - 1) =~= line.subrange(i, j - 1));
        assert(split_fields_rec(line, i, Seq::empty(), false, false, acc) == split_fields_rec(
            line,
            i + 1,
            seq!['"'],
            true,
            false,
            acc,
        ));
        assert(split_fields_rec(line, j - 1, line.subrange(i, j - 1), true, false, acc)
            == split_fields_rec(line, j, line.subrange(i, j - 1).push('"'), false, false, acc));
        assert(line.subrange(i, j - 1).push('"') =~= line.subrange(i, j));
    } else {
        assert(forall|k: int| 0 <= k < f.len() ==> f[k] != ',' && #[trigger] f[k] != '"');
        assert(forall|k: int| i <= k < j ==> line[k] == f[k - i]);
        assert(forall|k: int| i <= k < j ==> line[k] != ',' && #[trigger] line[k] != '"');
        lemma_consume_raw(line, i, j, Seq::empty(), acc);
        assert(Seq::<char>::empty() + line.subrange(i, j) =~= line.subrange(i, j));
    }
}

/// Splitting the join of well-shaped fields returns exactly those fields.
proof fn lemma_split_join(line: Seq<char>, i: int, acc: Seq<Seq<char>>, cells: Seq<Seq<char>>)
    requires
        0 <= i <= line.len(),
        cells.len() >= 1,
        forall|k: int| 0 <= k < cells.len() ==> wf_field_text(#[trigger] cells[k]),
        line.skip(i) == join_from(cells, 0),
    ensures
        split_fields_rec(line, i, Seq::empty(), false, false, acc) == Some(acc + cells),
    decreases cells.len(),
{
    let first = cells[0];
    let j = i + first.len();
    assert(forall|k: int| 0 <= k < line.len() - i ==> line.skip(i)[k] == line[i + k]);
    if cells.len() == 1 {
        assert(join_from(cells, 0) == first);
        assert(j == line.len());
        assert(line.subrange(i, j) =~= first);
        lemma_consume_field(line, i, j, acc);
        assert(split_fields_rec(line, j, line.subrange(i, j), false, false, acc) == Some(
            acc.push(line.subrange(i, j)),
        ));
        assert(acc.push(first) =~= acc + cells);
    } else {
        let tail = join_from(cells, 1);
        assert(join_from(cells, 0) == first + seq![','] + tail);
        assert(line.skip(i).len() == first.len() + 1 + tail.len());
        assert(j + 1 + tail.len() == line.len());
        assert forall|k: int| 0 <= k < first.len() implies line[i + k] == first[k] by {
            assert(line.skip(i)[k] == (first + seq![','] + tail)[k]);
        }
        assert(line.subrange(i, j) =~= first);
        assert(line[j] == ',') by {
            assert(line.skip(i)[first.len() as int] == (first + seq![','] + tail)[first.len() as int]);
        }
        lemma_consume_field(line, i, j, acc);
        assert(split_fields_rec(line, j, line.subrange(i, j), false, false, acc)
            == split_fields_rec(line, j + 1, Seq::empty(), false, false, acc.push(
            line.subrange(i, j),
        )));
        let rest = cells.drop_first();
        assert(forall|k: int| 0 <= k < rest.len() ==> rest[k] == cells[k + 1]);
        lemma_join_from_shift(cells);
        assert forall|k: int| 0 <= k < tail.len() implies line[j + 1 + k] == tail[k] by {
            assert(line.skip(i)[first.len() + 1 + k] == (first + seq![','] + tail)[first.len() + 1
                + k]);
        }
        assert(line.skip(j + 1) =~= join_from(rest, 0));
        lemma_split_join(line, j + 1, acc.push(first), rest);
        assert(acc.push(first) + rest =~= acc + cells);
    }
}

/// Dropping the first cell shifts the forward join.
proof fn lemma_join_from_shift(cells: Seq<Seq<char>>)
    requires
        cells.len() >= 2,
    ensures
        join_from(cells.drop_first(), 0) == join_from(cells, 1),
    decreases cells.len(),
{
    lemma_join_from_shift_at(cells, 1);
}

proof fn lemma_join_from_shift_at(cells: Seq<Seq<char>>, k: int)
    requires
        1 <= k <= cells.len(),
    ensures
        join_from(cells.drop_first(), k - 1) == join_from(cells, k),
    decreases cells.len() - k,
{
    let rest = cells.drop_first();
    if k < cells.len() {
        lemma_join_from_shift_at(cells, k + 1);
        assert(rest[k - 1] == cells[k]);
    }
}

/// The character never occurs in the cell texts, so never in their join
/// (other than the delimiter itself).
proof fn lemma_join_no_char(cells: Seq<Seq<char>>, c: char)
    requires
        c != ',',
        forall|k: int, x: int|
            0 <= k < cells.len() && 0 <= x < cells[k].len() ==> #[trigger] cells[k][x] != c,
    ensures
        forall|x: int| 0 <= x < join_fields(cells).len() ==> #[trigger] join_fields(cells)[x] != c,
    decreases cells.len(),
{
    if cells.len() > 1 {
        lemma_join_no_char(cells.drop_last(), c);
        let j = join_fields(cells);
        let pre = join_fields(cells.drop_last());
        assert(j == pre + seq![','] + cells.last());
        assert forall|x: int| 0 <= x < j.len() implies #[trigger] j[x] != c by {
            if x < pre.len() {
                assert(j[x] == pre[x]);
            } else if x == pre.len() {
                assert(j[x] == ',');
            } else {
                assert(j[x] == cells.last()[x - pre.len() - 1]);
                assert(cells[cells.len() - 1][x - pre.len() - 1] != c);
            }
        }
    } else if cells.len() == 1 {
        assert(forall|x: int| 0 <= x < cells[0].len() ==> #[trigger] cells[0][x] != c);
    }
}

/// The escaped form of a text holds no line break characters.
proof fn lemma_escape_no_breaks(s: Seq<char>)
    ensures
        forall|x: int|
            0 <= x < escape_text(s).len() ==> #[trigger] escape_text(s)[x] != '\n' && escape_text(
                s,
            )[x] != '\r',
    decreases s.len(),
{
    if s.len() > 0 {
        lemma_escape_no_breaks(s.drop_first());
        let e = escape_text(s);
        let h = escape_char(s[0]);
        assert(e == h + escape_text(s.drop_first()));
        assert forall|x: int| 0 <= x < e.len() implies #[trigger] e[x] != '\n' && e[x] != '\r' by {
            if x < h.len() {
                assert(e[x] == h[x]);
            } else {
                assert(e[x] == escape_text(s.drop_first())[x - h.len()]);
            }
        }
    }
}

/// The natural text of a non-text scalar uses only digits, sign, point,
/// exponent mark and the boolean letters: in particular no delimiter,
/// quote, blank or break characters.
proof fn lemma_scalar_raw_charset(m: ValModel)
    requires
        is_scalar_model(m),
        !(m is Text),
        crate::value::model_wf(m),
    ensures
        forall|x: int|
            0 <= x < scalar_raw_text(m).len() ==> {
                let c = #[trigger] scalar_raw_text(m)[x];
                c != ',' && c != '"' && c != '\n' && c != '\r' && !is_blank_char(c)
            },
{
    let t = scalar_raw_text(m);
    match m {
        ValModel::Integer(i) => {
            if i >= 0 {
                crate::scalar::lemma_dec_digits(i);
                assert forall|x: int| 0 <= x < t.len() implies {
                    let c = #[trigger] t[x];
                    c != ',' && c != '"' && c != '\n' && c != '\r' && !is_blank_char(c)
                } by {
                    assert(crate::scalar::is_ascii_digit(t[x]));
                }
            } else {
                crate::scalar::lemma_dec_digits(-i);
                assert(t == seq!['-'] + crate::scalar::dec_digits(-i));
                assert forall|x: int| 0 <= x < t.len() implies {
                    let c = #[trigger] t[x];
                    c != ',' && c != '"' && c != '\n' && c != '\r' && !is_blank_char(c)
                } by {
                    if x == 0 {
                        assert(t[0] == '-');
                    } else {
                        assert(t[x] == crate::scalar::dec_digits(-i)[x - 1]);
                        assert(crate::scalar::is_ascii_digit(t[x]));
                    }
                }
            }
        },
        ValModel::Float(ft) => {
            assert(crate::scalar::float_text_charset(ft));
            assert forall|x: int| 0 <= x < t.len() implies {
                let c = #[trigger] t[x];
                c != ',' && c != '"' && c != '\n' && c != '\r' && !is_blank_char(c)
            } by {
                assert(crate::scalar::is_ascii_digit(t[x]) || t[x] == '-' || t[x] == '+' || t[x]
                    == '.' || t[x] == 'e');
            }
        },
        _ => {
        },
    }
}

/// The cell text of a well-formed scalar is a well-shaped field with no
/// line breaks, and reading it back restores the scalar exactly.
pub proof fn lemma_cell_round_trip(m: ValModel)
    requires
        is_scalar_model(m),
        crate::value::model_wf(m),
    ensures
        wf_field_text(cell_text(m)),
        forall|x: int|
            0 <= x < cell_text(m).len() ==> #[trigger] cell_text(m)[x] != '\n' && cell_text(m)[x]
                != '\r',
        cell_parse(cell_text(m)) == Some(m),
{
    let t = cell_text(m);
    match m {
        ValModel::Text(s) => {
            let e = escape_text(s);
            assert(t == seq!['"'] + e + seq!['"']);
            lemma_escape_wf(s);
            lemma_escape_no_breaks(s);
            assert(t.subrange(1, t.len() - 1) =~= e);
            assert(t[0] == '"');
            assert(t.last() == '"');
            assert(wf_field_text(t));
            assert forall|x: int| 0 <= x < t.len() implies #[trigger] t[x] != '\n' && t[x] != '\r'
                by {
                if 0 < x < t.len() - 1 {
                    assert(t[x] == e[x - 1]);
                }
            }
            // Reading back: no trimming happens, the quoted branch applies.
            assert(trim_front(t) == t);
            assert(trim_back(t) == t);
            lemma_unescape_escape(s);
            assert(cell_parse(t) == Some(ValModel::Text(s)));
        },
        ValModel::Null => {
            assert(t =~= Seq::<char>::empty());
            assert(trim_front(t) == t);
            assert(trim_back(t) == t);
            assert(cell_parse(t) == Some(ValModel::Null));
            assert(wf_field_text(t));
        },
        ValModel::Boolean(b) => {
            assert forall|x: int| 0 <= x < t.len() implies {
                let c = #[trigger] t[x];
                c != ',' && c != '"' && c != '\n' && c != '\r' && !is_blank_char(c)
            } by {
                if b {
                    assert(t == seq!['t', 'r', 'u', 'e']);
                    assert(t[x] == 't' || t[x] == 'r' || t[x] == 'u' || t[x] == 'e');
                } else {
                    assert(t == seq!['f', 'a', 'l', 's', 'e']);
                    assert(t[x] == 'f' || t[x] == 'a' || t[x] == 'l' || t[x] == 's' || t[x] == 'e');
                }
            }
            lemma_raw_cell_back(m);
        },
        ValModel::Integer(i) => {
            lemma_scalar_raw_charset(m);
            crate::scalar::lemma_int_text_infer(i);
            lemma_raw_cell_back(m);
        },
        ValModel::Float(ft) => {
            lemma_scalar_raw_charset(m);
            lemma_raw_cell_back(m);
        },
        _ => {
        },
    }
}

/// A raw (unquoted) scalar cell reads back through inference.
proof fn lemma_raw_cell_back(m: ValModel)
    requires
        is_scalar_model(m),
        !(m is Text),
        !(m is Null),
        crate::value::model_wf(m),
        forall|x: int|
            0 <= x < scalar_raw_text(m).len() ==> {
                let c = #[trigger] scalar_raw_text(m)[x];
                c != ',' && c != '"' && c != '\n' && c != '\r' && !is_blank_char(c)
            },
    ensures
        wf_field_text(cell_text(m)),
        forall|x: int|
            0 <= x < cell_text(m).len() ==> #[trigger] cell_text(m)[x] != '\n' && cell_text(m)[x]
                != '\r',
        cell_parse(cell_text(m)) == Some(m),
{
    let t = cell_text(m);
    assert(t == scalar_raw_text(m));
    assert(wf_field_text(t)) by {
        assert(forall|k: int| 0 <= k < t.len() ==> t[k] != ',' && #[trigger] t[k] != '"');
    }
    crate::scalar::lemma_reinfer_scalar(m);
    assert(t.len() > 0) by {
        match m {
            ValModel::Boolean(b) => {},
            ValModel::Integer(i) => {
                if i >= 0 {
                    crate::scalar::lemma_dec_digits(i);
                } else {
                    crate::scalar::lemma_dec_digits(-i);
                }
            },
            ValModel::Float(ft) => {},
            _ => {},
        }
    }
    assert(!is_blank_char(t[0]));
    assert(!is_blank_char(t.last()));
    assert(trim_front(t) == t);
    assert(trim_back(t) == t);
    assert(t[0] != '"');
    assert(!contains_quote(t));
    assert(cell_parse(t) == Some(spec_infer(t)));
}

/// The lines of a document joined back together, each ended by a newline.
pub open spec fn lines_joined(lines: Seq<Seq<char>>, k: int) -> Seq<char>
    decreases lines.len() - k,
{
    if k < 0 || k >= lines.len() {
        Seq::empty()
    } else {
        lines[k] + seq!['\n'] + lines_joined(lines, k + 1)
    }
}

proof fn lemma_lines_joined_shift(lines: Seq<Seq<char>>, k: int)
    requires
        1 <= k <= lines.len(),
    ensures
        lines_joined(lines.drop_first(), k - 1) == lines_joined(lines, k),
    decreases lines.len() - k,
{
    if k < lines.len() {
        lemma_lines_joined_shift(lines, k + 1);
        assert(lines.drop_first()[k - 1] == lines[k]);
    }
}

/// Consuming a run of non-break characters accumulates them into the
/// current line.
proof fn lemma_consume_line(text: Seq<char>, i: int, j: int, cur: Seq<char>, acc: Seq<Seq<char>>)
    requires
        0 <= i <= j <= text.len(),
        forall|k: int| i <= k < j ==> #[trigger] text[k] != '\n',
    ensures
        split_lines_rec(text, i, cur, acc) == split_lines_rec(text, j, cur + text.subrange(i, j), acc),
    decreases j - i,
{
    if i < j {
        lemma_consume_line(text, i + 1, j, cur.push(text[i]), acc);
        assert(cur.push(text[i]) + text.subrange(i + 1, j) =~= cur + text.subrange(i, j));
    } else {
        assert(cur + text.subrange(i, j) =~= cur);
    }
}

/// Splitting the joined lines returns exactly those lines, when no line
/// holds a break character.
pub(crate) proof fn lemma_split_lines_join(text: Seq<char>, i: int, acc: Seq<Seq<char>>, lines: Seq<Seq<char>>)
    requires
        0 <= i <= text.len(),
        forall|k: int, x: int|
            0 <= k < lines.len() && 0 <= x < lines[k].len() ==> #[trigger] lines[k][x] != '\n'
                && lines[k][x] != '\r',
        text.skip(i) == lines_joined(lines, 0),
    ensures
        split_lines_rec(text, i, Seq::empty(), acc) == acc + lines,
    decreases lines.len(),
{
    assert(forall|k: int| 0 <= k < text.len() - i ==> text.skip(i)[k] == text[i + k]);
    if lines.len() == 0 {
        assert(text.skip(i).len() == 0);
        assert(i == text.len());
        assert(acc + lines =~= acc);
    } else {
        let first = lines[0];
        let j = i + first.len();
        let tail = lines_joined(lines, 1);
        assert(lines_joined(lines, 0) == first + seq!['\n'] + tail);
        assert(text.skip(i).len() == first.len() + 1 + tail.len());
        assert forall|k: int| 0 <= k < first.len() implies text[i + k] == first[k] by {
            assert(text.skip(i)[k] == (first + seq!['\n'] + tail)[k]);
        }
        assert(text.subrange(i, j) =~= first);
        assert(text[j] == '\n') by {
            assert(text.skip(i)[first.len() as int] == (first + seq!['\n'] + tail)[first.len() as int]);
        }
        assert forall|k: int| i <= k < j implies #[trigger] text[k] != '\n' by {
            assert(text[i + (k - i)] == first[k - i]);
            assert(first[k - i] != '\n');
        }
        lemma_consume_line(text, i, j, Seq::empty(), acc);
        assert(Seq::<char>::empty() + text.subrange(i, j) =~= first);
        assert(split_lines_rec(text, j, first, acc) == split_lines_rec(
            text,
            j + 1,
            Seq::empty(),
            acc.push(strip_cr(first)),
        ));
        assert(strip_cr(first) == first) by {
            if first.len() > 0 {
                assert(first[first.len() - 1] != '\r');
            }
        }
        let rest = lines.drop_first();
        lemma_lines_joined_shift(lines, 1);
        assert forall|k: int| 0 <= k < tail.len() implies text[j + 1 + k] == tail[k] by {
            assert(text.skip(i)[first.len() + 1 + k] == (first + seq!['\n'] + tail)[first.len() + 1
                + k]);
        }
        assert(text.skip(j + 1) =~= lines_joined(rest, 0));
        assert(forall|k: int| 0 <= k < rest.len() ==> rest[k] == lines[k + 1]);
        lemma_split_lines_join(text, j + 1, acc.push(first), rest);
        assert(acc.push(first) + rest =~= acc + lines);
    }
}

/// Reading back a row of well-formed cells gives the cells' values.
proof fn lemma_parse_cells_all(cells: Seq<Seq<char>>, ms: Seq<ValModel>)
    requires
        cells.len() == ms.len(),
        forall|j: int| 0 <= j < cells.len() ==> cell_parse(#[trigger] cells[j]) == Some(ms[j]),
    ensures
        parse_cells(cells) == Some(ms),
    decreases cells.len(),
{
    if cells.len() > 0 {
        lemma_parse_cells_all(cells.drop_last(), ms.drop_last());
        assert(cell_parse(cells.last()) == Some(ms.last()));
        assert(ms.drop_last().push(ms.last()) =~= ms);
    } else {
        assert(ms =~= Seq::<ValModel>::empty());
    }
}

/// Every record's key list equals the first record's, in the same order.
pub open spec fn rows_uniform(m: ValModel) -> bool {
    m is Sequence ==> forall|i: int|
        0 <= i < m->Sequence_0.len() ==> (#[trigger] m->Sequence_0[i]) is Mapping && record_keys(
            m->Sequence_0[i]->Mapping_0,
        ) == record_keys(m->Sequence_0[0]->Mapping_0)
}

/// Under uniform keys, looking each column up restores the record's own
/// entries in order.
proof fn lemma_uniform_record(header: Seq<Seq<char>>, entries: Seq<(Seq<char>, ValModel)>)
    requires
        record_keys(entries) == header,
        crate::value::model_keys_unique(entries),
    ensures
        forall|j: int|
            0 <= j < header.len() ==> crate::value::model_map_get(entries, #[trigger] header[j])
                == Some(entries[j].1),
{
    assert forall|j: int| 0 <= j < header.len() implies crate::value::model_map_get(
        entries,
        #[trigger] header[j],
    ) == Some(entries[j].1) by {
        assert(record_keys(entries)[j] == entries[j].0);
        assert(entries[j].0 == header[j]);
        crate::value::lemma_map_index_of(entries, header[j]);
        assert(crate::value::model_map_has_key(entries, header[j]));
        let ix = crate::value::model_map_index_of(entries, header[j]);
        assert(entries[ix].0 == header[j]);
        if ix < j {
            assert(entries[ix].0 != entries[j].0);
        }
        if ix > j {
            assert(forall|p: int| 0 <= p < ix ==> entries[p].0 != header[j]);
        }
        assert(ix == j);
    }
}

/// The record lines of the document, as a line list.
pub open spec fn row_lines(records: Seq<ValModel>, header: Seq<Seq<char>>) -> Seq<Seq<char>> {
    Seq::new(records.len(), |i: int| join_fields(record_cell_texts(header, records[i]->Mapping_0)))
}

proof fn lemma_rows_body_joined(records: Seq<ValModel>, header: Seq<Seq<char>>, i: int)
    requires
        0 <= i <= records.len(),
    ensures
        rows_body_text(records, header, i) == lines_joined(row_lines(records, header), i),
    decreases records.len() - i,
{
    if i < records.len() {
        lemma_rows_body_joined(records, header, i + 1);
        assert(row_lines(records, header)[i] == join_fields(
            record_cell_texts(header, records[i]->Mapping_0),
        ));
    }
}

/// The row round trip: parsing the serialized form of a well-formed,
/// serializable record sequence with a uniform column list restores exactly
/// the original value.
pub proof fn lemma_rows_round_trip(m: ValModel)
    requires
        crate::value::model_wf(m),
        rows_serializable(m),
        rows_uniform(m),
    ensures
        parse_rows_model(rows_text(m)) == Ok::<ValModel, StructuralError>(m),
{
    let records = m->Sequence_0;
    if records.len() == 0 {
        assert(rows_text(m) =~= Seq::<char>::empty());
        assert(split_lines(Seq::<char>::empty()) =~= Seq::<Seq<char>>::empty());
        assert(parse_rows_model(rows_text(m)) == Ok::<ValModel, StructuralError>(
            ValModel::Sequence(Seq::empty()),
        ));
        assert(m == ValModel::Sequence(records));
        assert(records =~= Seq::<ValModel>::empty());
    } else {
        let header = record_keys(records[0]->Mapping_0);
        let header_line = join_fields(header);
        let rls = row_lines(records, header);
        let all_lines = seq![header_line] + rls;
        let text = rows_text(m);
        // Every line is break-free.
        assert forall|k: int, x: int|
            0 <= k < all_lines.len() && 0 <= x < all_lines[k].len() implies #[trigger] all_lines[k][x]
            != '\n' && all_lines[k][x] != '\r' by {
            if k == 0 {
                assert(all_lines[0] == header_line);
                lemma_join_no_char(header, '\n');
                lemma_join_no_char(header, '\r');
                assert(forall|p: int, q: int|
                    0 <= p < header.len() && 0 <= q < header[p].len() ==> #[trigger] header[p][q]
                        != '\n' && header[p][q] != '\r') by {
                    assert(forall|p: int| 0 <= p < header.len() ==> plain_key(#[trigger] header[p]));
                }
            } else {
                let entries = records[k - 1]->Mapping_0;
                let cells = record_cell_texts(header, entries);
                assert(all_lines[k] == rls[k - 1]);
                assert(rls[k - 1] == join_fields(cells));
                assert forall|p: int, q: int|
                    0 <= p < cells.len() && 0 <= q < cells[p].len() implies #[trigger] cells[p][q]
                    != '\n' && cells[p][q] != '\r' by {
                    let mv = crate::value::model_map_get(entries, header[p])->Some_0;
                    lemma_wf_record_cell(m, k - 1, p);
                    assert(cells[p] == cell_text(mv));
                }
                lemma_join_no_char(cells, '\n');
                lemma_join_no_char(cells, '\r');
            }
        }
        // The document is the joined lines.
        lemma_rows_body_joined(records, header, 0);
        assert(lines_joined(all_lines, 0) == header_line + seq!['\n'] + lines_joined(all_lines, 1));
        lemma_lines_joined_shift(all_lines, 1);
        assert(all_lines.drop_first() =~= rls);
        assert(text == header_line + seq!['\n'] + lines_joined(rls, 0));
        assert(text.skip(0) =~= lines_joined(all_lines, 0));
        lemma_split_lines_join(text, 0, Seq::empty(), all_lines);
        assert(split_lines(text) == Seq::<Seq<char>>::empty() + all_lines);
        assert(Seq::<Seq<char>>::empty() + all_lines =~= all_lines);
        // The header splits back into the column names.
        assert forall|k: int| 0 <= k < header.len() implies wf_field_text(#[trigger] header[k]) by {
            assert(plain_key(header[k]));
            assert(forall|x: int| 0 <= x < header[k].len() ==> header[k][x] != ',' && #[trigger] header[k][x]
                != '"');
        }
        lemma_join_from(header);
        assert(header_line.skip(0) =~= join_from(header, 0));
        lemma_split_join(header_line, 0, Seq::empty(), header);
        assert(all_lines[0] == header_line);
        assert(split_fields(header_line) == Some(Seq::<Seq<char>>::empty() + header));
        assert(Seq::<Seq<char>>::empty() + header =~= header);
        assert(names_distinct(header));
        // The record rows.
        lemma_rows_rt_rec(m, all_lines, header, 1, Seq::empty());
        assert(Seq::<ValModel>::empty() + records.skip(0) =~= records);
        assert(m == ValModel::Sequence(records));
    }
}

/// The cell of record `i`, column `p` is the cell text of a well-formed
/// scalar, well-shaped and break-free.
proof fn lemma_wf_record_cell(m: ValModel, i: int, p: int)
    requires
        crate::value::model_wf(m),
        rows_serializable(m),
        0 <= i < m->Sequence_0.len(),
        0 <= p < record_keys(m->Sequence_0[0]->Mapping_0).len(),
    ensures
        ({
            let header = record_keys(m->Sequence_0[0]->Mapping_0);
            let entries = m->Sequence_0[i]->Mapping_0;
            let mv = crate::value::model_map_get(entries, header[p])->Some_0;
            &&& is_scalar_model(mv)
            &&& crate::value::model_wf(mv)
            &&& wf_field_text(cell_text(mv))
            &&& (forall|x: int|
                0 <= x < cell_text(mv).len() ==> #[trigger] cell_text(mv)[x] != '\n' && cell_text(
                    mv,
                )[x] != '\r')
            &&& cell_parse(cell_text(mv)) == Some(mv)
        }),
{
    let header = record_keys(m->Sequence_0[0]->Mapping_0);
    let entries = m->Sequence_0[i]->Mapping_0;
    assert(record_ok(header, entries));
    assert(crate::value::model_map_has_key(entries, header[p]));
    crate::value::lemma_map_index_of(entries, header[p]);
    let ix = crate::value::model_map_index_of(entries, header[p]);
    let mv = crate::value::model_map_get(entries, header[p])->Some_0;
    assert(mv == entries[ix].1);
    assert(crate::value::model_wf(m->Sequence_0[i]));
    assert(crate::value::model_wf(mv));
    assert(is_scalar_model(mv));
    lemma_cell_round_trip(mv);
}

/// Parsing the remaining record lines appends exactly the remaining
/// records.
proof fn lemma_rows_rt_rec(
    m: ValModel,
    all_lines: Seq<Seq<char>>,
    header: Seq<Seq<char>>,
    i: int,
    acc: Seq<ValModel>,
)
    requires
        crate::value::model_wf(m),
        rows_serializable(m),
        rows_uniform(m),
        m->Sequence_0.len() >= 1,
        header == record_keys(m->Sequence_0[0]->Mapping_0),
        all_lines == seq![join_fields(header)] + row_lines(m->Sequence_0, header),
        1 <= i <= all_lines.len(),
    ensures
        parse_rows_rec(all_lines, header, i, acc) == Ok::<ValModel, StructuralError>(
            ValModel::Sequence(acc + m->Sequence_0.skip(i - 1)),
        ),
    decreases all_lines.len() - i,
{
    let records = m->Sequence_0;
    assert(all_lines.len() == records.len() + 1);
    if i == all_lines.len() {
        assert(records.skip(i - 1) =~= Seq::<ValModel>::empty());
        assert(acc + records.skip(i - 1) =~= acc);
    } else {
        let entries = records[i - 1]->Mapping_0;
        let cells = record_cell_texts(header, entries);
        let line = all_lines[i];
        assert(line == row_lines(records, header)[i - 1]);
        assert(line == join_fields(cells));
        // The line splits back into the cells.
        assert forall|k: int| 0 <= k < cells.len() implies wf_field_text(#[trigger] cells[k]) by {
            lemma_wf_record_cell(m, i - 1, k);
        }
        assert(cells.len() == header.len() >= 1);
        lemma_join_from(cells);
        assert(line.skip(0) =~= join_from(cells, 0));
        lemma_split_join(line, 0, Seq::empty(), cells);
        assert(split_fields(line) == Some(Seq::<Seq<char>>::empty() + cells));
        assert(Seq::<Seq<char>>::empty() + cells =~= cells);
        // The cells read back into the record's values.
        let ms = Seq::new(cells.len(), |j: int| crate::value::model_map_get(entries, header[j])->Some_0);
        assert forall|j: int| 0 <= j < cells.len() implies cell_parse(#[trigger] cells[j]) == Some(
            ms[j],
        ) by {
            lemma_wf_record_cell(m, i - 1, j);
        }
        lemma_parse_cells_all(cells, ms);
        // Zipping the header with the values restores the entries.
        assert(record_keys(entries) == header);
        assert(crate::value::model_keys_unique(entries)) by {
            assert(record_ok(header, entries));
        }
        lemma_uniform_record(header, entries);
        assert(zip_record(header, ms) =~= entries);
        assert(records[i - 1] is Mapping);
        assert(records[i - 1] == ValModel::Mapping(entries));
        lemma_rows_rt_rec(m, all_lines, header, i + 1, acc.push(records[i - 1]));
        assert(acc.push(records[i - 1]) + records.skip(i) =~= acc + records.skip(i - 1));
    }
}

} // verus!
