//! The record parser: turns physical lines into logical records.
//!
//! A physical line is first trimmed of leading and trailing whitespace, then
//! scanned character by character.  A delimiter outside quotes closes the
//! current field; a double quote is kept verbatim in the field and toggles
//! the quoted state; every other character is appended to the current field.
//! A record whose quoted state is still open at the end of a line continues
//! on the next physical line, with the configured line terminator standing
//! for the line break inside the field.

use vstd::prelude::*;
use vstd::string::StringExecFns;
use crate::CsvError;

verus! {

/// Whether `c` carries the Unicode `White_Space` property, the set of
/// characters that trimming a line removes from its ends.
pub open spec fn is_line_whitespace(c: char) -> bool {
    let u = c as u32;
    ||| (0x09 <= u && u <= 0x0D)
    ||| u == 0x20
    ||| u == 0x85
    ||| u == 0xA0
    ||| u == 0x1680
    ||| (0x2000 <= u && u <= 0x200A)
    ||| u == 0x2028
    ||| u == 0x2029
    ||| u == 0x202F
    ||| u == 0x205F
    ||| u == 0x3000
}

/// Executable test for [`is_line_whitespace`].
pub fn line_whitespace(c: char) -> (r: bool)
    ensures
        r == is_line_whitespace(c),
{
    let u = c as u32;
    (0x09 <= u && u <= 0x0D) || u == 0x20 || u == 0x85 || u == 0xA0 || u == 0x1680
        || (0x2000 <= u && u <= 0x200A) || u == 0x2028 || u == 0x2029 || u == 0x202F
        || u == 0x205F || u == 0x3000
}

/// `s` with leading and trailing whitespace characters removed.
pub open spec fn trimmed(s: Seq<char>) -> Seq<char>
    decreases s.len(),
{
    if s.len() == 0 {
        s
    } else if is_line_whitespace(s[0]) {
        trimmed(s.drop_first())
    } else if is_line_whitespace(s.last()) {
        trimmed(s.drop_last())
    } else {
        s
    }
}

/// Every character of `s` is whitespace exactly when trimming leaves
/// nothing.
proof fn lemma_trimmed_all_whitespace(s: Seq<char>)
    requires
        forall|k: int| 0 <= k < s.len() ==> is_line_whitespace(s[k]),
    ensures
        trimmed(s) == Seq::<char>::empty(),
    decreases s.len(),
{
    if s.len() == 0 {
        assert(s =~= Seq::<char>::empty());
    } else {
        lemma_trimmed_all_whitespace(s.drop_first());
    }
}

/// Trimming keeps exactly the characters between the first and the last
/// non-whitespace character.
proof fn lemma_trimmed_subrange(s: Seq<char>, a: int, b: int)
    requires
        0 <= a <= b <= s.len(),
        forall|k: int| 0 <= k < a ==> is_line_whitespace(s[k]),
        forall|k: int| b <= k < s.len() ==> is_line_whitespace(s[k]),
        a == b || (!is_line_whitespace(s[a]) && !is_line_whitespace(s[b - 1])),
    ensures
        trimmed(s) == s.subrange(a, b),
    decreases s.len(),
{
    if a == b {
        lemma_trimmed_all_whitespace(s);
        assert(s.subrange(a, b) =~= Seq::<char>::empty());
    } else if s.len() == 0 {
    } else if is_line_whitespace(s[0]) {
        lemma_trimmed_subrange(s.drop_first(), a - 1, b - 1);
        assert(s.drop_first().subrange(a - 1, b - 1) =~= s.subrange(a, b));
    } else if is_line_whitespace(s.last()) {
        lemma_trimmed_subrange(s.drop_last(), a, b);
        assert(s.drop_last().subrange(a, b) =~= s.subrange(a, b));
    } else {
        assert(s.subrange(a, b) =~= s);
    }
}

/// One trimmed line scanned into raw fields, together with the quoted state
/// at the end of the line.  A delimiter outside quotes closes the current
/// field; a double quote is kept in the field and toggles the quoted state;
/// any other character is appended to the current field.
pub open spec fn scan_fields(s: Seq<char>, delimiter: char, in_quotes: bool) -> (Seq<Seq<char>>, bool)
    decreases s.len(),
{
    if s.len() == 0 {
        (seq![Seq::<char>::empty()], in_quotes)
    } else if s[0] == delimiter && !in_quotes {
        let r = scan_fields(s.drop_first(), delimiter, false);
        (seq![Seq::<char>::empty()] + r.0, r.1)
    } else if s[0] == '"' {
        let r = scan_fields(s.drop_first(), delimiter, !in_quotes);
        (seq![seq![s[0]] + r.0[0]] + r.0.drop_first(), r.1)
    } else {
        let r = scan_fields(s.drop_first(), delimiter, in_quotes);
        (seq![seq![s[0]] + r.0[0]] + r.0.drop_first(), r.1)
    }
}

/// A scan always yields at least one field.
pub proof fn lemma_scan_fields_nonempty(s: Seq<char>, delimiter: char, in_quotes: bool)
    ensures
        scan_fields(s, delimiter, in_quotes).0.len() >= 1,
    decreases s.len(),
{
    if s.len() > 0 {
        if s[0] == delimiter && !in_quotes {
            lemma_scan_fields_nonempty(s.drop_first(), delimiter, false);
        } else if s[0] == '"' {
            lemma_scan_fields_nonempty(s.drop_first(), delimiter, !in_quotes);
        } else {
            lemma_scan_fields_nonempty(s.drop_first(), delimiter, in_quotes);
        }
    }
}

/// What [`parse_line`] returns: the fields of one physical line after
/// trimming, and the quoted state at the end of the line.
pub open spec fn line_fields(line: Seq<char>, delimiter: char, in_quotes: bool) -> (Seq<Seq<char>>, bool) {
    scan_fields(trimmed(line), delimiter, in_quotes)
}

/// Accumulated scanning state folded together with the scan of the rest of
/// the line: the fields already closed, the open field, and the scan of the
/// remaining characters.
spec fn scan_state(
    closed: Seq<Seq<char>>,
    open_field: Seq<char>,
    rest: (Seq<Seq<char>>, bool),
) -> (Seq<Seq<char>>, bool) {
    (closed + seq![open_field + rest.0[0]] + rest.0.drop_first(), rest.1)
}

/// Parse one physical line into raw fields, given the delimiter and the
/// quoted state carried in from the previous line.  Returns the fields and
/// the quoted state as it stands at the end of the line; an open quoted
/// state means the record continues on the next physical line.
pub fn parse_line(line: &str, delimiter: char, in_quotes: bool) -> (r: (Vec<String>, bool))
    ensures
        r.0.deep_view() == line_fields(line@, delimiter, in_quotes).0,
        r.1 == line_fields(line@, delimiter, in_quotes).1,
{
    let n = line.unicode_len();

    let mut a: usize = 0;
    while a < n && line_whitespace(line.get_char(a))
        invariant
            0 <= a <= n == line@.len(),
            forall|k: int| 0 <= k < a ==> is_line_whitespace(line@[k]),
        decreases n - a,
    {
        a = a + 1;
    }
    let mut b: usize = n;
    while b > a && line_whitespace(line.get_char(b - 1))
        invariant
            a <= b <= n == line@.len(),
            forall|k: int| b <= k < n ==> is_line_whitespace(line@[k]),
        decreases b,
    {
        b = b - 1;
    }
    if a == b {
        // The whole line is whitespace.
        a = 0;
        b = 0;
        proof {
            lemma_trimmed_subrange(line@, 0, 0);
        }
    }
    let ghost t: Seq<char> = trimmed(line@);
    proof {
        if a != b {
            lemma_trimmed_subrange(line@, a as int, b as int);
        }
        assert(t == line@.subrange(a as int, b as int));
    }

    let mut fields: Vec<String> = Vec::new();
    let mut current_field: String = String::new();
    let mut quoted = in_quotes;
    let mut i: usize = a;
    proof {
        lemma_scan_fields_nonempty(t, delimiter, in_quotes);
        let r = scan_fields(t, delimiter, in_quotes);
        assert(t.skip(0) =~= t);
        assert(fields.deep_view() =~= Seq::<Seq<char>>::empty());
        assert(Seq::<Seq<char>>::empty() + seq![Seq::<char>::empty() + r.0[0]] + r.0.drop_first()
            =~= r.0);
    }
    while i < b
        invariant
            a <= i <= b <= line@.len(),
            t == line@.subrange(a as int, b as int),
            scan_state(
                fields.deep_view(),
                current_field@,
                scan_fields(t.skip(i - a), delimiter, quoted),
            ) == scan_fields(t, delimiter, in_quotes),
        decreases b - i,
    {
        let c = line.get_char(i);
        let ghost rest = t.skip(i - a);
        proof {
            assert(rest[0] == c);
            assert(rest.drop_first() =~= t.skip(i + 1 - a));
        }
        let ghost old_fields = fields.deep_view();
        let ghost old_current = current_field@;
        if c == delimiter && !quoted {
            let ghost r = scan_fields(t.skip(i + 1 - a), delimiter, false);
            proof {
                lemma_scan_fields_nonempty(t.skip(i + 1 - a), delimiter, false);
            }
            fields.push(current_field);
            current_field = String::new();
            proof {
                assert(fields.deep_view() =~= old_fields.push(old_current));
                assert((seq![Seq::<char>::empty()] + r.0).drop_first() =~= r.0);
                assert(seq![r.0[0]] + r.0.drop_first() =~= r.0);
                assert(old_fields.push(old_current) + seq![Seq::<char>::empty() + r.0[0]]
                    + r.0.drop_first() =~= old_fields + seq![old_current + (seq![
                    Seq::<char>::empty(),
                ] + r.0)[0]] + (seq![Seq::<char>::empty()] + r.0).drop_first());
            }
        } else {
            let ghost q2 = if c == '"' {
                !quoted
            } else {
                quoted
            };
            let ghost r = scan_fields(t.skip(i + 1 - a), delimiter, q2);
            proof {
                lemma_scan_fields_nonempty(t.skip(i + 1 - a), delimiter, q2);
            }
            crate::strutil::push_char(&mut current_field, c);
            if c == '"' {
                quoted = !quoted;
            }
            proof {
                assert((seq![seq![c] + r.0[0]] + r.0.drop_first()).drop_first() =~= r.0.drop_first());
                assert(old_current.push(c) + r.0[0] =~= old_current + (seq![seq![c] + r.0[0]]
                    + r.0.drop_first())[0]);
                assert(old_fields + seq![old_current.push(c) + r.0[0]] + r.0.drop_first()
                    =~= old_fields + seq![old_current + (seq![seq![c] + r.0[0]]
                    + r.0.drop_first())[0]] + (seq![seq![c] + r.0[0]]
                    + r.0.drop_first()).drop_first());
            }
        }
        i = i + 1;
    }
    proof {
        assert(t.skip(b - a) =~= Seq::<char>::empty());
    }
    let ghost final_fields = fields.deep_view();
    let ghost final_current = current_field@;
    fields.push(current_field);
    proof {
        assert(fields.deep_view() =~= final_fields.push(final_current));
        let r = scan_fields(Seq::<char>::empty(), delimiter, quoted);
        assert(final_fields + seq![final_current + r.0[0]] + r.0.drop_first()
            =~= final_fields.push(final_current));
    }
    (fields, quoted)
}

/// The outcome of asking for the next logical record at a given line index.
pub enum RecordStep {
    /// No line is left: the input is exhausted before the record starts.
    End,
    /// The input ended while a quoted field was still open.
    Truncated,
    /// A complete record, and the index of the first line after it.
    Record(Seq<Seq<char>>, int),
}

/// A record whose last field is still quoted, continued by the fields of the
/// next physical line: the open field and the first new field are joined by
/// the line terminator, and the remaining new fields follow as fields of
/// their own.
pub open spec fn join_continuation(
    record: Seq<Seq<char>>,
    next: Seq<Seq<char>>,
    eol: Seq<char>,
) -> Seq<Seq<char>> {
    record.drop_last().push(record.last() + eol + next[0]) + next.drop_first()
}

/// Continue a record whose quoted state is open at line `i`, consuming
/// physical lines until the quoted state closes.
pub open spec fn assemble_record(
    lines: Seq<Seq<char>>,
    i: int,
    acc: Seq<Seq<char>>,
    delimiter: char,
    eol: Seq<char>,
) -> RecordStep
    decreases lines.len() - i,
{
    if i < 0 || i >= lines.len() {
        RecordStep::Truncated
    } else {
        let (fields, quoted) = line_fields(lines[i], delimiter, true);
        let joined = join_continuation(acc, fields, eol);
        if quoted {
            assemble_record(lines, i + 1, joined, delimiter, eol)
        } else {
            RecordStep::Record(joined, i + 1)
        }
    }
}

/// The next logical record of `lines` starting at line index `start`.
pub open spec fn next_record_spec(
    lines: Seq<Seq<char>>,
    start: int,
    delimiter: char,
    eol: Seq<char>,
) -> RecordStep {
    if start < 0 || start >= lines.len() {
        RecordStep::End
    } else {
        let (fields, quoted) = line_fields(lines[start], delimiter, false);
        if quoted {
            assemble_record(lines, start + 1, fields, delimiter, eol)
        } else {
            RecordStep::Record(fields, start + 1)
        }
    }
}

/// A completed record ends after the line it started on and within the
/// input, and holds at least one field.
pub proof fn lemma_assemble_record_bounds(
    lines: Seq<Seq<char>>,
    i: int,
    acc: Seq<Seq<char>>,
    delimiter: char,
    eol: Seq<char>,
)
    requires
        acc.len() >= 1,
    ensures
        assemble_record(lines, i, acc, delimiter, eol) matches RecordStep::Record(fields, next)
            ==> i < next <= lines.len() && fields.len() >= 1,
    decreases lines.len() - i,
{
    if 0 <= i < lines.len() {
        let (fields, quoted) = line_fields(lines[i], delimiter, true);
        lemma_scan_fields_nonempty(trimmed(lines[i]), delimiter, true);
        let joined = join_continuation(acc, fields, eol);
        if quoted {
            lemma_assemble_record_bounds(lines, i + 1, joined, delimiter, eol);
        }
    }
}

/// Same bounds for the start of a record.
pub proof fn lemma_next_record_bounds(
    lines: Seq<Seq<char>>,
    start: int,
    delimiter: char,
    eol: Seq<char>,
)
    ensures
        next_record_spec(lines, start, delimiter, eol) matches RecordStep::Record(fields, next)
            ==> start < next <= lines.len() && fields.len() >= 1,
{
    if 0 <= start < lines.len() {
        let (fields, quoted) = line_fields(lines[start], delimiter, false);
        lemma_scan_fields_nonempty(trimmed(lines[start]), delimiter, false);
        if quoted {
            lemma_assemble_record_bounds(lines, start + 1, fields, delimiter, eol);
        }
    }
}

/// All logical records of `lines` from line index `start` to the end, or
/// nothing if the input ends while a quoted field is still open.
pub open spec fn records_from(
    lines: Seq<Seq<char>>,
    start: int,
    delimiter: char,
    eol: Seq<char>,
) -> Option<Seq<Seq<Seq<char>>>>
    decreases lines.len() - start,
    via records_from_decreases
{
    match next_record_spec(lines, start, delimiter, eol) {
        RecordStep::End => Some(Seq::empty()),
        RecordStep::Truncated => None,
        RecordStep::Record(fields, next) => match records_from(lines, next, delimiter, eol) {
            Some(rest) => Some(seq![fields] + rest),
            None => None,
        },
    }
}

#[via_fn]
proof fn records_from_decreases(lines: Seq<Seq<char>>, start: int, delimiter: char, eol: Seq<char>) {
    lemma_next_record_bounds(lines, start, delimiter, eol);
}

/// Produce the next logical record from the physical lines of one source,
/// starting at line index `start`.  Returns the record's raw fields and the
/// index of the first line after it, `Ok(None)` when no line is left, and an
/// error when the input ends while a quoted field is still open.
pub fn next_record(lines: &Vec<String>, start: usize, delimiter: char, line_ending: &str) -> (r:
    Result<Option<(Vec<String>, usize)>, CsvError>)
    ensures
        ({
            match next_record_spec(lines.deep_view(), start as int, delimiter, line_ending@) {
                RecordStep::End => r matches Ok(None),
                RecordStep::Truncated => r matches Err(CsvError::UnexpectedEndOfInput),
                RecordStep::Record(fields, next) => r matches Ok(Some(p)) && p.0.deep_view()
                    == fields && p.1 == next,
            }
        }),
{
    let ghost dv = lines.deep_view();
    let ghost step = next_record_spec(dv, start as int, delimiter, line_ending@);
    if start >= lines.len() {
        return Ok(None);
    }
    let first = parse_line(lines[start].as_str(), delimiter, false);
    let mut fields = first.0;
    let mut quoted = first.1;
    let mut i = start + 1;
    proof {
        lemma_scan_fields_nonempty(trimmed(dv[start as int]), delimiter, false);
    }
    while quoted
        invariant
            start < i <= lines@.len(),
            dv == lines.deep_view(),
            step == next_record_spec(dv, start as int, delimiter, line_ending@),
            fields.deep_view().len() >= 1,
            quoted ==> assemble_record(dv, i as int, fields.deep_view(), delimiter, line_ending@)
                == step,
            !quoted ==> step == RecordStep::Record(fields.deep_view(), i as int),
        decreases lines@.len() - i,
    {
        if i >= lines.len() {
            return Err(CsvError::UnexpectedEndOfInput);
        }
        let ghost acc = fields.deep_view();
        let next_line = parse_line(lines[i].as_str(), delimiter, true);
        let next_fields = next_line.0;
        let still_quoted = next_line.1;
        proof {
            lemma_scan_fields_nonempty(trimmed(dv[i as int]), delimiter, true);
        }
        let ghost nf = next_fields.deep_view();
        let ghost joined = join_continuation(acc, nf, line_ending@);
        let mut last_field = fields.pop().unwrap();
        last_field.append(line_ending);
        last_field.append(next_fields[0].as_str());
        fields.push(last_field);
        proof {
            assert(fields.deep_view() =~= acc.drop_last().push(acc.last() + line_ending@ + nf[0]));
        }
        let mut j: usize = 1;
        while j < next_fields.len()
            invariant
                1 <= j <= next_fields@.len(),
                nf == next_fields.deep_view(),
                fields.deep_view() == acc.drop_last().push(acc.last() + line_ending@ + nf[0])
                    + nf.subrange(1, j as int),
            decreases next_fields@.len() - j,
        {
            let ghost before = fields.deep_view();
            fields.push(next_fields[j].clone());
            proof {
                assert(fields.deep_view() =~= before.push(nf[j as int]));
                assert(before.push(nf[j as int]) =~= acc.drop_last().push(acc.last() + line_ending@
                    + nf[0]) + nf.subrange(1, j + 1));
            }
            j = j + 1;
        }
        proof {
            assert(nf.subrange(1, nf.len() as int) =~= nf.drop_first());
            assert(fields.deep_view() =~= joined);
        }
        quoted = still_quoted;
        i = i + 1;
    }
    Ok(Some((fields, i)))
}

/// Parse every logical record of one source, given as its physical lines.
/// Fails when the input ends while a quoted field is still open.
pub fn parse_records(lines: &Vec<String>, delimiter: char, line_ending: &str) -> (r: Result<
    Vec<Vec<String>>,
    CsvError,
>)
    ensures
        ({
            match records_from(lines.deep_view(), 0, delimiter, line_ending@) {
                Some(s) => r matches Ok(recs) && recs.deep_view() == s,
                None => r matches Err(CsvError::UnexpectedEndOfInput),
            }
        }),
{
    let ghost dv = lines.deep_view();
    let mut records: Vec<Vec<String>> = Vec::new();
    let mut pos: usize = 0;
    proof {
        assert(records.deep_view() =~= Seq::<Seq<Seq<char>>>::empty());
    }
    loop
        invariant
            pos <= lines@.len(),
            dv == lines.deep_view(),
            ({
                let whole = records_from(dv, 0, delimiter, line_ending@);
                match records_from(dv, pos as int, delimiter, line_ending@) {
                    Some(rest) => whole == Some(records.deep_view() + rest),
                    None => whole is None,
                }
            }),
        decreases lines@.len() - pos,
    {
        proof {
            lemma_next_record_bounds(dv, pos as int, delimiter, line_ending@);
        }
        match next_record(lines, pos, delimiter, line_ending) {
            Err(e) => {
                return Err(e);
            },
            Ok(None) => {
                proof {
                    assert(records.deep_view() + Seq::<Seq<Seq<char>>>::empty()
                        =~= records.deep_view());
                }
                return Ok(records);
            },
            Ok(Some(parsed)) => {
                let ghost before = records.deep_view();
                let ghost rec_view = parsed.0.deep_view();
                let ghost rest = records_from(dv, parsed.1 as int, delimiter, line_ending@);
                records.push(parsed.0);
                pos = parsed.1;
                proof {
                    assert(records.deep_view() =~= before.push(rec_view));
                    if rest is Some {
                        assert(before.push(rec_view) + rest.unwrap() =~= before + (seq![rec_view]
                            + rest.unwrap()));
                    }
                }
            },
        }
    }
}

/// A line whose first and last characters are not whitespace is left
/// unchanged by trimming.
pub proof fn lemma_trimmed_stable(s: Seq<char>)
    requires
        s.len() > 0,
        !is_line_whitespace(s[0]),
        !is_line_whitespace(s.last()),
    ensures
        trimmed(s) == s,
{
}

/// A run of characters holding neither the delimiter nor a quote scans into
/// one field, the run itself, leaving the quoted state as it was.
proof fn lemma_scan_plain(s: Seq<char>, delimiter: char, in_quotes: bool)
    requires
        forall|i: int| 0 <= i < s.len() ==> s[i] != '"' && s[i] != delimiter,
    ensures
        scan_fields(s, delimiter, in_quotes) == (seq![s], in_quotes),
    decreases s.len(),
{
    if s.len() == 0 {
        assert(s =~= Seq::<char>::empty());
    } else {
        lemma_scan_plain(s.drop_first(), delimiter, in_quotes);
        let r = scan_fields(s.drop_first(), delimiter, in_quotes);
        assert(seq![seq![s[0]] + r.0[0]] + r.0.drop_first() =~= seq![s]) by {
            assert(r.0 == seq![s.drop_first()]);
            assert(seq![s[0]] + s.drop_first() =~= s);
            assert((seq![seq![s[0]] + r.0[0]] + r.0.drop_first()).len() == 1);
        }
    }
}

/// A quote-free, delimiter-free run followed by a closing quote, scanned
/// while inside quotes, yields one field (the run with the quote kept) and
/// closes the quoted state.
proof fn lemma_scan_closing(b: Seq<char>, delimiter: char)
    requires
        forall|i: int| 0 <= i < b.len() ==> b[i] != '"' && b[i] != delimiter,
    ensures
        scan_fields(b + seq!['"'], delimiter, true) == (seq![b + seq!['"']], false),
    decreases b.len(),
{
    let s = b + seq!['"'];
    if b.len() == 0 {
        assert(s =~= seq!['"']);
        assert(s[0] == '"');
        assert(s.drop_first() =~= Seq::<char>::empty());
        let r = scan_fields(s.drop_first(), delimiter, false);
        assert(seq![seq![s[0]] + r.0[0]] + r.0.drop_first() =~= seq![s]);
    } else {
        lemma_scan_closing(b.drop_first(), delimiter);
        assert(s[0] == b[0]);
        assert(s.drop_first() =~= b.drop_first() + seq!['"']);
        let r = scan_fields(s.drop_first(), delimiter, true);
        assert(r.0 == seq![b.drop_first() + seq!['"']]);
        assert(seq![seq![s[0]] + r.0[0]] + r.0.drop_first() =~= seq![s]) by {
            assert(seq![s[0]] + (b.drop_first() + seq!['"']) =~= s);
        }
    }
}

/// A quoted field that spans two physical lines survives a parse and
/// re-emission: the two halves come back as one field, joined by the line
/// terminator, with both quote characters kept, and serializing that record
/// reproduces the field verbatim.
pub proof fn lemma_quoted_multiline_round_trip(
    a: Seq<char>,
    b: Seq<char>,
    delimiter: char,
    eol: Seq<char>,
)
    requires
        delimiter != '"',
        forall|i: int| 0 <= i < a.len() ==> !is_line_whitespace(a[i]) && a[i] != '"' && a[i]
            != delimiter,
        forall|i: int| 0 <= i < b.len() ==> !is_line_whitespace(b[i]) && b[i] != '"' && b[i]
            != delimiter,
    ensures
        next_record_spec(seq![seq!['"'] + a, b + seq!['"']], 0, delimiter, eol)
            == RecordStep::Record(seq![seq!['"'] + a + eol + b + seq!['"']], 2),
        crate::engine::joined(seq![seq!['"'] + a + eol + b + seq!['"']], delimiter) == seq!['"'] + a
            + eol + b + seq!['"'],
{
    let line1 = seq!['"'] + a;
    let line2 = b + seq!['"'];
    let lines = seq![line1, line2];
    assert('"' as u32 == 0x22);
    assert(!is_line_whitespace('"'));

    // The first physical line: the opening quote, then the first half.
    assert(line1[0] == '"');
    assert(line1.last() == if a.len() == 0 { '"' } else { a.last() });
    lemma_trimmed_stable(line1);
    lemma_scan_plain(a, delimiter, true);
    assert(line1.drop_first() =~= a);
    let r1 = scan_fields(a, delimiter, true);
    assert(scan_fields(line1, delimiter, false) == (seq![seq![line1[0]] + r1.0[0]] + r1.0.drop_first(), true));
    assert(seq![seq![line1[0]] + r1.0[0]] + r1.0.drop_first() =~= seq![line1]) by {
        assert(seq!['"'] + a =~= seq![line1[0]] + a);
    }
    assert(line_fields(lines[0], delimiter, false) == (seq![line1], true));

    // The second physical line: the second half, then the closing quote.
    assert(line2[0] == if b.len() == 0 { '"' } else { b[0] });
    assert(line2.last() == '"');
    lemma_trimmed_stable(line2);
    lemma_scan_closing(b, delimiter);
    assert(line_fields(lines[1], delimiter, true) == (seq![line2], false));

    // The two lines assemble into one record with one joined field.
    let joined_rec = join_continuation(seq![line1], seq![line2], eol);
    assert(joined_rec =~= seq![line1 + eol + line2]) by {
        assert(seq![line1].drop_last() =~= Seq::<Seq<char>>::empty());
        assert(seq![line2].drop_first() =~= Seq::<Seq<char>>::empty());
        assert(Seq::<Seq<char>>::empty().push(line1 + eol + line2) + Seq::<Seq<char>>::empty()
            =~= seq![line1 + eol + line2]);
    }
    assert(line1 + eol + line2 =~= seq!['"'] + a + eol + b + seq!['"']);
    assert(assemble_record(lines, 1, seq![line1], delimiter, eol) == RecordStep::Record(
        seq![seq!['"'] + a + eol + b + seq!['"']],
        2,
    ));
}

} // verus!
