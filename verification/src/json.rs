use vstd::prelude::*;
use vstd::string::StrSliceExecFns;
use vstd::string::StringExecFns;
use crate::couples::{rows_well_formed, Couples};

verus! {

// ---------------------------------------------------------------------------
// The document grammar.
//
// The assignment set is persisted as a pretty-printed JSON object with one
// field holding the rows:
//
//     {
//       "couples": [
//         ["giver", "token"],
//         ["giver", "token"]
//       ]
//     }
//
// String content is escaped as JSON asks: quote, backslash and control
// characters; everything else passes through unchanged.
// ---------------------------------------------------------------------------
pub open spec fn header() -> Seq<char> {
    "{\n  \"couples\": ["@
}

pub open spec fn empty_tail() -> Seq<char> {
    "]\n}"@
}

pub open spec fn footer() -> Seq<char> {
    "\n  ]\n}"@
}

pub open spec fn row_open() -> Seq<char> {
    "\n    [\""@
}

pub open spec fn row_mid() -> Seq<char> {
    "\", \""@
}

pub open spec fn row_close() -> Seq<char> {
    "\"]"@
}

/// The lower-case hexadecimal digit for a value below sixteen.
pub open spec fn hex_digit(v: int) -> char {
    if v == 0 {
        '0'
    } else if v == 1 {
        '1'
    } else if v == 2 {
        '2'
    } else if v == 3 {
        '3'
    } else if v == 4 {
        '4'
    } else if v == 5 {
        '5'
    } else if v == 6 {
        '6'
    } else if v == 7 {
        '7'
    } else if v == 8 {
        '8'
    } else if v == 9 {
        '9'
    } else if v == 10 {
        'a'
    } else if v == 11 {
        'b'
    } else if v == 12 {
        'c'
    } else if v == 13 {
        'd'
    } else if v == 14 {
        'e'
    } else {
        'f'
    }
}

/// The JSON escape of one character.
pub open spec fn esc_char(c: char) -> Seq<char> {
    if c == '"' {
        seq!['\\', '"']
    } else if c == '\\' {
        seq!['\\', '\\']
    } else if c == '\n' {
        seq!['\\', 'n']
    } else if c == '\r' {
        seq!['\\', 'r']
    } else if c == '\t' {
        seq!['\\', 't']
    } else if (c as u32) < 32 {
        seq![
            '\\',
            'u',
            '0',
            '0',
            if (c as u32) < 16 {
                '0'
            } else {
                '1'
            },
            hex_digit(c as u32 as int % 16),
        ]
    } else {
        seq![c]
    }
}

/// The JSON escape of a string.
pub open spec fn esc(s: Seq<char>) -> Seq<char>
    decreases s.len(),
{
    if s.len() == 0 {
        Seq::empty()
    } else {
        esc_char(s[0]) + esc(s.drop_first())
    }
}

/// One rendered row: `["giver", "token"]` on its own indented line.
pub open spec fn row_text(row: Seq<Seq<char>>) -> Seq<char> {
    row_open() + esc(row[0]) + row_mid() + esc(row[1]) + row_close()
}

/// All rows, separated by commas.
pub open spec fn rows_text(rows: Seq<Seq<Seq<char>>>) -> Seq<char>
    decreases rows.len(),
{
    if rows.len() == 0 {
        Seq::empty()
    } else if rows.len() == 1 {
        row_text(rows[0])
    } else {
        row_text(rows[0]) + ","@ + rows_text(rows.drop_first())
    }
}

/// The whole persisted document for an assignment set.
pub open spec fn doc_of(rows: Seq<Seq<Seq<char>>>) -> Seq<char> {
    if rows.len() == 0 {
        header() + empty_tail()
    } else {
        header() + rows_text(rows) + footer()
    }
}

/// The separator between the two strings of a row, as the reader meets it
/// after consuming the giver's closing quote.
pub open spec fn mid_sep() -> Seq<char> {
    ", \""@
}

/// The row terminator, as the reader meets it after consuming the token's
/// closing quote.
pub open spec fn close_bracket() -> Seq<char> {
    "]"@
}

/// The value of a lower-case hexadecimal digit, or a negative number for
/// any other character.
pub open spec fn hex_val(c: char) -> int {
    if c == '0' {
        0
    } else if c == '1' {
        1
    } else if c == '2' {
        2
    } else if c == '3' {
        3
    } else if c == '4' {
        4
    } else if c == '5' {
        5
    } else if c == '6' {
        6
    } else if c == '7' {
        7
    } else if c == '8' {
        8
    } else if c == '9' {
        9
    } else if c == 'a' {
        10
    } else if c == 'b' {
        11
    } else if c == 'c' {
        12
    } else if c == 'd' {
        13
    } else if c == 'e' {
        14
    } else if c == 'f' {
        15
    } else {
        -1
    }
}

/// The character named by a simple two-character escape.
pub open spec fn unesc_simple(e: char) -> char {
    if e == 'n' {
        '\n'
    } else if e == 'r' {
        '\r'
    } else if e == 't' {
        '\t'
    } else {
        e
    }
}

/// The text `lit` sits in `s` at position `i`.
pub open spec fn expect(s: Seq<char>, i: int, lit: Seq<char>) -> bool {
    &&& 0 <= i
    &&& i + lit.len() <= s.len()
    &&& s.subrange(i, i + lit.len()) == lit
}

/// Reads a JSON string body starting at `i`, through its closing quote.
/// Returns the unescaped content and the position just past the quote.
pub open spec fn scan_str(s: Seq<char>, i: int) -> Option<(Seq<char>, int)>
    decreases s.len() - i,
{
    if i < 0 || i >= s.len() {
        None
    } else if s[i] == '"' {
        Some((Seq::empty(), i + 1))
    } else if s[i] == '\\' {
        if i + 2 > s.len() {
            None
        } else if s[i + 1] == '"' || s[i + 1] == '\\' || s[i + 1] == 'n' || s[i + 1] == 'r' || s[i
            + 1] == 't' {
            match scan_str(s, i + 2) {
                Some(p) => Some((seq![unesc_simple(s[i + 1])] + p.0, p.1)),
                None => None,
            }
        } else if s[i + 1] == 'u' {
            if i + 6 <= s.len() && s[i + 2] == '0' && s[i + 3] == '0' && hex_val(s[i + 4]) >= 0
                && hex_val(s[i + 5]) >= 0 {
                match scan_str(s, i + 6) {
                    Some(p) => Some(
                        (seq![((hex_val(s[i + 4]) * 16 + hex_val(s[i + 5])) as u8) as char] + p.0, p.1),
                    ),
                    None => None,
                }
            } else {
                None
            }
        } else {
            None
        }
    } else {
        match scan_str(s, i + 1) {
            Some(p) => Some((seq![s[i]] + p.0, p.1)),
            None => None,
        }
    }
}

/// A successful string read always moves forward and stays in bounds.
pub proof fn lemma_scan_str_advances(s: Seq<char>, i: int)
    requires
        scan_str(s, i) is Some,
    ensures
        i < scan_str(s, i)->Some_0.1 <= s.len(),
    decreases s.len() - i,
{
    if 0 <= i < s.len() && s[i] != '"' {
        if s[i] == '\\' {
            if i + 2 <= s.len() && (s[i + 1] == '"' || s[i + 1] == '\\' || s[i + 1] == 'n' || s[i
                + 1] == 'r' || s[i + 1] == 't') {
                lemma_scan_str_advances(s, i + 2);
            } else {
                lemma_scan_str_advances(s, i + 6);
            }
        } else {
            lemma_scan_str_advances(s, i + 1);
        }
    }
}

/// Reads assignment rows from a row opener at `i` through the closing
/// footer, returning the rows and the position just past the footer.
pub open spec fn parse_rows(s: Seq<char>, i: int) -> Option<(Seq<Seq<Seq<char>>>, int)>
    decreases s.len() - i,
    via parse_rows_decreases
{
    if !expect(s, i, row_open()) {
        None
    } else {
        match scan_str(s, i + row_open().len()) {
            None => None,
            Some((g, j)) => {
                if !expect(s, j, mid_sep()) {
                    None
                } else {
                    match scan_str(s, j + mid_sep().len()) {
                        None => None,
                        Some((t, k)) => {
                            if !expect(s, k, close_bracket()) {
                                None
                            } else {
                                let after = k + close_bracket().len();
                                if after < s.len() && s[after] == ',' {
                                    match parse_rows(s, after + 1) {
                                        Some((rows, e)) => Some((seq![seq![g, t]] + rows, e)),
                                        None => None,
                                    }
                                } else if expect(s, after, footer()) {
                                    Some((seq![seq![g, t]], after + footer().len()))
                                } else {
                                    None
                                }
                            }
                        },
                    }
                }
            },
        }
    }
}

#[via_fn]
proof fn parse_rows_decreases(s: Seq<char>, i: int) {
    if expect(s, i, row_open()) {
        match scan_str(s, i + row_open().len()) {
            Some(p) => {
                lemma_scan_str_advances(s, i + row_open().len());
                let j = p.1;
                if expect(s, j, mid_sep()) {
                    match scan_str(s, j + mid_sep().len()) {
                        Some(q) => {
                            lemma_scan_str_advances(s, j + mid_sep().len());
                        },
                        None => {},
                    }
                }
            },
            None => {},
        }
    }
}

/// Reads a whole persisted document.
pub open spec fn parse_doc(s: Seq<char>) -> Option<Seq<Seq<Seq<char>>>> {
    if !expect(s, 0, header()) {
        None
    } else if expect(s, header().len() as int, empty_tail()) && s.len() == header().len()
        + empty_tail().len() {
        Some(Seq::empty())
    } else {
        match parse_rows(s, header().len() as int) {
            Some((rows, e)) => {
                if e == s.len() {
                    Some(rows)
                } else {
                    None
                }
            },
            None => None,
        }
    }
}

/// A text sitting at `i` can be split: each part sits at its own offset.
pub proof fn lemma_expect_concat(s: Seq<char>, i: int, a: Seq<char>, b: Seq<char>)
    requires
        expect(s, i, a + b),
    ensures
        expect(s, i, a),
        expect(s, i + a.len(), b),
{
    let ab = a + b;
    assert forall|q: int| 0 <= q < a.len() implies s.subrange(i, i + a.len())[q] == a[q] by {
        assert(s.subrange(i, i + ab.len())[q] == ab[q]);
    }
    assert(s.subrange(i, i + a.len()) =~= a);
    assert forall|q: int|
        0 <= q < b.len() implies s.subrange(i + a.len(), i + a.len() + b.len())[q] == b[q] by {
        assert(s.subrange(i, i + ab.len())[a.len() + q] == ab[a.len() + q]);
    }
    assert(s.subrange(i + a.len(), i + a.len() + b.len()) =~= b);
}

/// A text sitting at `i` pins down every character under it.
pub proof fn lemma_expect_index(s: Seq<char>, i: int, lit: Seq<char>, q: int)
    requires
        expect(s, i, lit),
        0 <= q < lit.len(),
    ensures
        s[i + q] == lit[q],
{
    assert(s.subrange(i, i + lit.len())[q] == lit[q]);
}

/// Reading back an escaped string: wherever the escape of `content`
/// followed by a closing quote sits in a document, the scanner recovers
/// exactly `content` and stops just past that quote.
pub proof fn lemma_scan_esc(content: Seq<char>, doc: Seq<char>, i: int)
    requires
        expect(doc, i, esc(content) + seq!['"']),
    ensures
        scan_str(doc, i) == Some((content, i + esc(content).len() + 1)),
    decreases content.len(),
{
    if content.len() == 0 {
        assert(esc(content) + seq!['"'] =~= seq!['"']);
        lemma_expect_index(doc, i, esc(content) + seq!['"'], 0);
        assert(doc[i] == '"');
        assert(content =~= Seq::<char>::empty());
    } else {
        let c = content[0];
        let rest = content.drop_first();
        let ec = esc_char(c);
        assert(esc(content) == ec + esc(rest));
        assert(esc(content) + seq!['"'] =~= ec + (esc(rest) + seq!['"']));
        lemma_expect_concat(doc, i, ec, esc(rest) + seq!['"']);
        lemma_scan_esc(rest, doc, i + ec.len());
        assert forall|q: int| 0 <= q < ec.len() implies doc[i + q] == ec[q] by {
            lemma_expect_index(doc, i, ec, q);
        }
        assert(seq![c] + rest =~= content);
        if c == '"' || c == '\\' || c == '\n' || c == '\r' || c == '\t' {
            assert(doc[i] == '\\');
            assert(unesc_simple(doc[i + 1]) == c);
            assert(scan_str(doc, i) == Some((seq![c] + rest, i + 2 + esc(rest).len() + 1)));
        } else if (c as u32) < 32 {
            let v = c as u32;
            assert(doc[i] == '\\' && doc[i + 1] == 'u' && doc[i + 2] == '0' && doc[i + 3] == '0');
            let hi = doc[i + 4];
            let lo = doc[i + 5];
            assert(hi == if v < 16 { '0' } else { '1' });
            assert(lo == hex_digit(v as int % 16));
            assert(hex_val(hi) == v as int / 16);
            assert(hex_val(lo) == v as int % 16);
            assert(hex_val(hi) * 16 + hex_val(lo) == v);
            let d = ((hex_val(hi) * 16 + hex_val(lo)) as u8) as char;
            assert(d as u32 == v);
            vstd::utf8::char_u32_cast(d, d as u32);
            vstd::utf8::char_u32_cast(c, c as u32);
            assert(d == c);
            assert(scan_str(doc, i) == Some((seq![c] + rest, i + 6 + esc(rest).len() + 1)));
        } else {
            assert(doc[i] == c);
            assert(c != '"' && c != '\\');
            assert(scan_str(doc, i) == Some((seq![c] + rest, i + 1 + esc(rest).len() + 1)));
        }
    }
}

/// Reading back rendered rows: wherever the rendered text of a well-formed
/// row list followed by the footer sits in a document, the row reader
/// recovers exactly those rows and stops just past the footer.
pub proof fn lemma_parse_rows_round_trip(rows: Seq<Seq<Seq<char>>>, doc: Seq<char>, i: int)
    requires
        rows.len() >= 1,
        rows_well_formed(rows),
        expect(doc, i, rows_text(rows) + footer()),
    ensures
        parse_rows(doc, i) == Some((rows, i + rows_text(rows).len() + footer().len())),
    decreases rows.len(),
{
    reveal_strlit("\", \"");
    reveal_strlit(", \"");
    reveal_strlit("\"]");
    reveal_strlit("]");
    reveal_strlit("\n  ]\n}");
    reveal_strlit(",");
    reveal_strlit("\n    [\"");
    let row = rows[0];
    let g = row[0];
    let t = row[1];
    assert(row.len() == 2);
    assert(row =~= seq![g, t]);
    assert(row_mid() =~= seq!['"'] + mid_sep());
    assert(row_close() =~= seq!['"'] + close_bracket());
    let tail: Seq<char> = if rows.len() == 1 {
        footer()
    } else {
        ","@ + rows_text(rows.drop_first()) + footer()
    };
    if rows.len() == 1 {
        assert(rows_text(rows) == row_text(row));
    } else {
        assert(rows_text(rows) == row_text(row) + ","@ + rows_text(rows.drop_first()));
    }
    let b = esc(g) + seq!['"'];
    let d = esc(t) + seq!['"'];
    assert(rows_text(rows) + footer() =~= row_open() + (b + (mid_sep() + (d + (close_bracket()
        + tail)))));
    lemma_expect_concat(doc, i, row_open(), b + (mid_sep() + (d + (close_bracket() + tail))));
    let i1 = i + row_open().len();
    lemma_expect_concat(doc, i1, b, mid_sep() + (d + (close_bracket() + tail)));
    lemma_scan_esc(g, doc, i1);
    let j = i1 + esc(g).len() + 1;
    assert(scan_str(doc, i1) == Some((g, j)));
    assert(i1 + b.len() == j);
    lemma_expect_concat(doc, j, mid_sep(), d + (close_bracket() + tail));
    let j1 = j + mid_sep().len();
    lemma_expect_concat(doc, j1, d, close_bracket() + tail);
    lemma_scan_esc(t, doc, j1);
    let k = j1 + esc(t).len() + 1;
    assert(scan_str(doc, j1) == Some((t, k)));
    assert(j1 + d.len() == k);
    lemma_expect_concat(doc, k, close_bracket(), tail);
    let after = k + close_bracket().len();
    if rows.len() == 1 {
        lemma_expect_index(doc, after, footer(), 0);
        assert(doc[after] == '\n');
        assert(!(after < doc.len() && doc[after] == ','));
        assert(parse_rows(doc, i) == Some((seq![seq![g, t]], after + footer().len())));
        assert(seq![seq![g, t]] =~= rows);
        assert(after + footer().len() == i + rows_text(rows).len() + footer().len());
    } else {
        let rest = rows.drop_first();
        assert(","@ =~= seq![',']);
        assert(tail =~= seq![','] + (rows_text(rest) + footer()));
        lemma_expect_concat(doc, after, seq![','], rows_text(rest) + footer());
        lemma_expect_index(doc, after, seq![','], 0);
        assert(doc[after] == ',');
        assert(after < doc.len());
        lemma_parse_rows_round_trip(rest, doc, after + 1);
        assert(parse_rows(doc, after + 1) == Some(
            (rest, after + 1 + rows_text(rest).len() + footer().len()),
        ));
        assert(seq![seq![g, t]] + rest =~= rows);
        assert(rows_text(rows).len() == row_text(row).len() + 1 + rows_text(rest).len());
        assert(parse_rows(doc, i) == Some((rows, i + rows_text(rows).len() + footer().len())));
    }
}

/// The round trip: rendering a well-formed assignment set and reading the
/// document back yields exactly the rendered rows.
pub proof fn lemma_doc_round_trip(rows: Seq<Seq<Seq<char>>>)
    requires
        rows_well_formed(rows),
    ensures
        parse_doc(doc_of(rows)) == Some(rows),
{
    let doc = doc_of(rows);
    let hl = header().len() as int;
    if rows.len() == 0 {
        assert(doc == header() + empty_tail());
        assert(doc.subrange(0, hl) =~= header());
        assert(expect(doc, 0, header()));
        assert(doc.subrange(hl, hl + empty_tail().len()) =~= empty_tail());
        assert(expect(doc, hl, empty_tail()));
        assert(parse_doc(doc) == Some(Seq::<Seq<Seq<char>>>::empty()));
        assert(rows =~= Seq::<Seq<Seq<char>>>::empty());
    } else {
        reveal_strlit("\n    [\"");
        reveal_strlit("]\n}");
        assert(doc =~= header() + (rows_text(rows) + footer()));
        assert(doc.subrange(0, doc.len() as int) =~= doc);
        assert(expect(doc, 0, header() + (rows_text(rows) + footer())));
        lemma_expect_concat(doc, 0, header(), rows_text(rows) + footer());
        if rows.len() == 1 {
            assert(rows_text(rows) == row_text(rows[0]));
        } else {
            assert(rows_text(rows) == row_text(rows[0]) + ","@ + rows_text(rows.drop_first()));
        }
        assert(row_open().len() > 0);
        assert(row_text(rows[0])[0] == row_open()[0]);
        assert(rows_text(rows)[0] == '\n');
        lemma_expect_index(doc, hl, rows_text(rows) + footer(), 0);
        assert(doc[hl] == '\n');
        if expect(doc, hl, empty_tail()) {
            lemma_expect_index(doc, hl, empty_tail(), 0);
            assert(doc[hl] == ']');
            assert(false);
        }
        lemma_parse_rows_round_trip(rows, doc, hl);
        assert(hl + rows_text(rows).len() + footer().len() == doc.len());
        assert(parse_doc(doc) == Some(rows));
    }
}

/// Relies on std's `String::push`: appends one character at the end.
#[verifier::external_body]
fn push_char(s: &mut String, c: char)
    ensures
        final(s)@ == old(s)@.push(c),
{
    s.push(c);
}

/// Escaping distributes over appending one character.
pub proof fn lemma_esc_snoc(s: Seq<char>, c: char)
    ensures
        esc(s.push(c)) == esc(s) + esc_char(c),
    decreases s.len(),
{
    if s.len() == 0 {
        assert(s.push(c).drop_first() =~= Seq::<char>::empty());
        assert(s.push(c)[0] == c);
        assert(s.push(c).len() == 1);
        assert(esc(Seq::<char>::empty()) == Seq::<char>::empty());
        assert(esc(s.push(c)) == esc_char(c) + Seq::<char>::empty());
        assert(esc(s.push(c)) =~= esc(s) + esc_char(c));
    } else {
        lemma_esc_snoc(s.drop_first(), c);
        assert(s.push(c).drop_first() =~= s.drop_first().push(c));
        assert(s.push(c)[0] == s[0]);
        assert(s.push(c).len() == s.len() + 1);
        assert(esc(s.push(c)) == esc_char(s[0]) + esc(s.push(c).drop_first()));
        assert(esc(s.push(c)) == esc_char(s[0]) + (esc(s.drop_first()) + esc_char(c)));
        assert(esc(s) == esc_char(s[0]) + esc(s.drop_first()));
        assert(esc(s.push(c)) =~= esc(s) + esc_char(c));
    }
}

/// Rendering distributes over appending one row to a non-empty list.
pub proof fn lemma_rows_text_snoc(rows: Seq<Seq<Seq<char>>>, row: Seq<Seq<char>>)
    requires
        rows.len() >= 1,
    ensures
        rows_text(rows.push(row)) == rows_text(rows) + ","@ + row_text(row),
    decreases rows.len(),
{
    if rows.len() == 1 {
        assert(rows.push(row).drop_first() =~= seq![row]);
        assert(rows.push(row)[0] == rows[0]);
        assert(rows.push(row).len() == 2);
        assert(rows_text(seq![row]) == row_text(row));
        assert(rows_text(rows.push(row)) == row_text(rows[0]) + ","@ + row_text(row));
        assert(rows_text(rows) == row_text(rows[0]));
        assert(rows_text(rows.push(row)) =~= rows_text(rows) + ","@ + row_text(row));
    } else {
        lemma_rows_text_snoc(rows.drop_first(), row);
        assert(rows.push(row).drop_first() =~= rows.drop_first().push(row));
        assert(rows.push(row)[0] == rows[0]);
        assert(rows.push(row).len() == rows.len() + 1);
        assert(rows_text(rows.push(row)) == row_text(rows[0]) + ","@ + rows_text(
            rows.push(row).drop_first(),
        ));
        assert(rows_text(rows.push(row)) == row_text(rows[0]) + ","@ + (rows_text(
            rows.drop_first(),
        ) + ","@ + row_text(row)));
        assert(rows_text(rows) == row_text(rows[0]) + ","@ + rows_text(rows.drop_first()));
        assert(rows_text(rows.push(row)) =~= rows_text(rows) + ","@ + row_text(row));
    }
}

fn hex_char(d: u8) -> (c: char)
    requires
        d < 16,
    ensures
        c == hex_digit(d as int),
{
    if d == 0 {
        '0'
    } else if d == 1 {
        '1'
    } else if d == 2 {
        '2'
    } else if d == 3 {
        '3'
    } else if d == 4 {
        '4'
    } else if d == 5 {
        '5'
    } else if d == 6 {
        '6'
    } else if d == 7 {
        '7'
    } else if d == 8 {
        '8'
    } else if d == 9 {
        '9'
    } else if d == 10 {
        'a'
    } else if d == 11 {
        'b'
    } else if d == 12 {
        'c'
    } else if d == 13 {
        'd'
    } else if d == 14 {
        'e'
    } else {
        'f'
    }
}

/// Appends the JSON escape of `s` to `out`.
fn append_escaped(out: &mut String, s: &str)
    ensures
        final(out)@ == old(out)@ + esc(s@),
{
    let n = s.unicode_len();
    let mut i: usize = 0;
    proof {
        assert(s@.subrange(0, 0) =~= Seq::<char>::empty());
        assert(old(out)@ + esc(s@.subrange(0, 0)) =~= old(out)@);
    }
    while i < n
        invariant
            n == s@.len(),
            0 <= i <= n,
            out@ == old(out)@ + esc(s@.subrange(0, i as int)),
        decreases n - i,
    {
        let c = s.get_char(i);
        if c == '"' {
            out.append("\\\"");
            proof {
                reveal_strlit("\\\"");
            }
        } else if c == '\\' {
            out.append("\\\\");
            proof {
                reveal_strlit("\\\\");
            }
        } else if c == '\n' {
            out.append("\\n");
            proof {
                reveal_strlit("\\n");
            }
        } else if c == '\r' {
            out.append("\\r");
            proof {
                reveal_strlit("\\r");
            }
        } else if c == '\t' {
            out.append("\\t");
            proof {
                reveal_strlit("\\t");
            }
        } else if (c as u32) < 32 {
            out.append("\\u00");
            proof {
                reveal_strlit("\\u00");
            }
            let v = c as u32;
            let hi: char = if v < 16 {
                '0'
            } else {
                '1'
            };
            push_char(out, hi);
            push_char(out, hex_char((v % 16) as u8));
        } else {
            push_char(out, c);
        }
        proof {
            assert(out@ =~= old(out)@ + (esc(s@.subrange(0, i as int)) + esc_char(s@[i as int])));
            lemma_esc_snoc(s@.subrange(0, i as int), s@[i as int]);
            assert(s@.subrange(0, i as int + 1) =~= s@.subrange(0, i as int).push(s@[i as int]));
            assert(out@ =~= old(out)@ + esc(s@.subrange(0, i as int + 1)));
        }
        i += 1;
    }
    proof {
        assert(s@.subrange(0, n as int) =~= s@);
    }
}

fn expect_at(s: &str, i: usize, lit: &str) -> (r: bool)
    ensures
        r == expect(s@, i as int, lit@),
{
    let n = s.unicode_len();
    let m = lit.unicode_len();
    if i > n || m > n - i {
        return false;
    }
    let mut k: usize = 0;
    while k < m
        invariant
            0 <= k <= m,
            i + m <= n,
            n == s@.len(),
            m == lit@.len(),
            forall|q: int| 0 <= q < k ==> s@[i + q] == lit@[q],
        decreases m - k,
    {
        if s.get_char(i + k) != lit.get_char(k) {
            proof {
                if expect(s@, i as int, lit@) {
                    lemma_expect_index(s@, i as int, lit@, k as int);
                }
            }
            return false;
        }
        k += 1;
    }
    proof {
        assert(s@.subrange(i as int, i as int + m as int) =~= lit@);
    }
    true
}

fn hex_value(c: char) -> (r: Option<u8>)
    ensures
        r is Some <==> hex_val(c) >= 0,
        r matches Some(v) ==> v == hex_val(c),
{
    if c == '0' {
        Some(0)
    } else if c == '1' {
        Some(1)
    } else if c == '2' {
        Some(2)
    } else if c == '3' {
        Some(3)
    } else if c == '4' {
        Some(4)
    } else if c == '5' {
        Some(5)
    } else if c == '6' {
        Some(6)
    } else if c == '7' {
        Some(7)
    } else if c == '8' {
        Some(8)
    } else if c == '9' {
        Some(9)
    } else if c == 'a' {
        Some(10)
    } else if c == 'b' {
        Some(11)
    } else if c == 'c' {
        Some(12)
    } else if c == 'd' {
        Some(13)
    } else if c == 'e' {
        Some(14)
    } else if c == 'f' {
        Some(15)
    } else {
        None
    }
}

fn scan_string(s: &str, i: usize) -> (r: Option<(String, usize)>)
    ensures
        (match scan_str(s@, i as int) {
            None => r is None,
            Some(p) => r matches Some(q) && q.0@ == p.0 && q.1 == p.1,
        }),
    decreases s@.len() - i,
{
    let n = s.unicode_len();
    if i >= n {
        return None;
    }
    let c = s.get_char(i);
    if c == '"' {
        return Some((String::new(), i + 1));
    }
    if c == '\\' {
        if n - i < 2 {
            return None;
        }
        let e = s.get_char(i + 1);
        if e == '"' || e == '\\' || e == 'n' || e == 'r' || e == 't' {
            let d: char = if e == 'n' {
                '\n'
            } else if e == 'r' {
                '\r'
            } else if e == 't' {
                '\t'
            } else {
                e
            };
            match scan_string(s, i + 2) {
                Some(p) => {
                    let mut head = String::new();
                    push_char(&mut head, d);
                    let content = head.concat(p.0.as_str());
                    proof {
                        assert(content@ =~= seq![unesc_simple(s@[i as int + 1])]
                            + scan_str(s@, i as int + 2)->Some_0.0);
                    }
                    Some((content, p.1))
                },
                None => None,
            }
        } else if e == 'u' {
            if n - i < 6 {
                return None;
            }
            if s.get_char(i + 2) != '0' || s.get_char(i + 3) != '0' {
                return None;
            }
            let h1 = match hex_value(s.get_char(i + 4)) {
                Some(v) => v,
                None => {
                    return None;
                },
            };
            let h2 = match hex_value(s.get_char(i + 5)) {
                Some(v) => v,
                None => {
                    return None;
                },
            };
            let d: char = (h1 * 16 + h2) as char;
            match scan_string(s, i + 6) {
                Some(p) => {
                    let mut head = String::new();
                    push_char(&mut head, d);
                    let content = head.concat(p.0.as_str());
                    proof {
                        assert(content@ =~= seq![
                            ((hex_val(s@[i as int + 4]) * 16 + hex_val(s@[i as int + 5])) as u8) as char,
                        ] + scan_str(s@, i as int + 6)->Some_0.0);
                    }
                    Some((content, p.1))
                },
                None => None,
            }
        } else {
            None
        }
    } else {
        match scan_string(s, i + 1) {
            Some(p) => {
                let mut head = String::new();
                push_char(&mut head, c);
                let content = head.concat(p.0.as_str());
                proof {
                    assert(content@ =~= seq![s@[i as int]] + scan_str(s@, i as int + 1)->Some_0.0);
                }
                Some((content, p.1))
            },
            None => None,
        }
    }
}

fn parse_rows_at(s: &str, i: usize) -> (r: Option<(Vec<Vec<String>>, usize)>)
    ensures
        (match parse_rows(s@, i as int) {
            None => r is None,
            Some(p) => r matches Some(q) && q.0.deep_view() == p.0 && q.1 == p.1,
        }),
    decreases s@.len() - i,
{
    let n = s.unicode_len();
    if !expect_at(s, i, "\n    [\"") {
        return None;
    }
    let i1 = i + "\n    [\"".unicode_len();
    let (g, j) = match scan_string(s, i1) {
        Some(p) => p,
        None => {
            return None;
        },
    };
    proof {
        lemma_scan_str_advances(s@, i1 as int);
    }
    if !expect_at(s, j, ", \"") {
        return None;
    }
    let j1 = j + ", \"".unicode_len();
    let (t, k) = match scan_string(s, j1) {
        Some(p) => p,
        None => {
            return None;
        },
    };
    proof {
        lemma_scan_str_advances(s@, j1 as int);
    }
    if !expect_at(s, k, "]") {
        return None;
    }
    let after = k + "]".unicode_len();
    let n = s.unicode_len();
    if after < n && s.get_char(after) == ',' {
        match parse_rows_at(s, after + 1) {
            Some((rows, e)) => {
                let row = vec![g, t];
                proof {
                    assert(row.deep_view() =~= seq![
                        scan_str(s@, i1 as int)->Some_0.0,
                        scan_str(s@, j1 as int)->Some_0.0,
                    ]);
                }
                let mut out = vec![row];
                let mut rest = rows;
                let ghost rest_view = rest.deep_view();
                let ghost head_view = out.deep_view();
                out.append(&mut rest);
                proof {
                    assert(out.deep_view() =~= head_view + rest_view);
                    assert(out.deep_view() =~= parse_rows(s@, i as int)->Some_0.0);
                }
                Some((out, e))
            },
            None => None,
        }
    } else if expect_at(s, after, "\n  ]\n}") {
        let row = vec![g, t];
        proof {
            assert(row.deep_view() =~= seq![
                scan_str(s@, i1 as int)->Some_0.0,
                scan_str(s@, j1 as int)->Some_0.0,
            ]);
        }
        let out = vec![row];
        proof {
            assert(out.deep_view() =~= parse_rows(s@, i as int)->Some_0.0);
        }
        Some((out, after + "\n  ]\n}".unicode_len()))
    } else {
        None
    }
}

/// Reads a persisted document back into an assignment set.  Exactly the
/// documents this library renders are accepted.
pub fn parse_document(s: &str) -> (r: Option<Couples>)
    ensures
        (match parse_doc(s@) {
            None => r is None,
            Some(rows) => r matches Some(c) && c@ == rows,
        }),
{
    if !expect_at(s, 0, "{\n  \"couples\": [") {
        return None;
    }
    let hl = "{\n  \"couples\": [".unicode_len();
    let n = s.unicode_len();
    if expect_at(s, hl, "]\n}") && n == hl + "]\n}".unicode_len() {
        let c = Couples::new();
        proof {
            assert(c@ =~= parse_doc(s@)->Some_0);
        }
        return Some(c);
    }
    match parse_rows_at(s, hl) {
        Some((rows, e)) => {
            if e == n {
                Some(Couples { couples: rows })
            } else {
                None
            }
        },
        None => None,
    }
}

/// Renders an assignment set as the persisted JSON document.
pub fn render_document(c: &Couples) -> (r: String)
    requires
        rows_well_formed(c@),
    ensures
        r@ == doc_of(c@),
{
    let mut out = String::from_str("{\n  \"couples\": [");
    let n = c.couples.len();
    if n == 0 {
        let r = out.concat("]\n}");
        assert(r@ =~= doc_of(c@));
        return r;
    }
    let mut i: usize = 0;
    while i < n
        invariant
            rows_well_formed(c@),
            n == c.couples.len(),
            n == c@.len(),
            n >= 1,
            0 <= i <= n,
            i == 0 ==> out@ == header(),
            i >= 1 ==> out@ == header() + rows_text(c@.subrange(0, i as int)),
        decreases n - i,
    {
        if i > 0 {
            out.append(",");
        }
        out.append("\n    [\"");
        let row = &c.couples[i];
        assert(row.deep_view() == c@[i as int]);
        assert(row@.len() == c@[i as int].len());
        append_escaped(&mut out, row[0].as_str());
        out.append("\", \"");
        append_escaped(&mut out, row[1].as_str());
        out.append("\"]");
        proof {
            assert(row@[0]@ == c@[i as int][0] && row@[1]@ == c@[i as int][1]);
            if i == 0 {
                assert(rows_text(c@.subrange(0, 1)) == row_text(c@[0]));
                assert(out@ =~= header() + rows_text(c@.subrange(0, 1)));
            } else {
                lemma_rows_text_snoc(c@.subrange(0, i as int), c@[i as int]);
                assert(c@.subrange(0, i as int + 1) =~= c@.subrange(0, i as int).push(
                    c@[i as int],
                ));
                assert(out@ =~= header() + rows_text(c@.subrange(0, i as int + 1)));
            }
        }
        i += 1;
    }
    proof {
        assert(c@.subrange(0, n as int) =~= c@);
    }
    let r = out.concat("\n  ]\n}");
    assert(r@ =~= doc_of(c@));
    r
}

} // verus!
