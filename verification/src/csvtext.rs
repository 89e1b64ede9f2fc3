//! The manifest file format: CSV with the fixed header
//! `name,postscript_name,codepoints,opentype_category` and one row per
//! glyph. A field holding a comma, quote or line break is quoted, with
//! inner quotes doubled; reading reverses this exactly.

use vstd::prelude::*;

use crate::chars::{chars_of_str, string_of_chars};

verus! {

/// Whether a field must be quoted to survive the row structure.
pub open spec fn needs_quoting(s: Seq<char>) -> bool {
    exists|i: int|
        0 <= i < s.len() && ((#[trigger] s[i]) == ',' || s[i] == '"' || s[i] == '\n' || s[i]
            == '\r')
}

/// A field's characters with every quote doubled.
pub open spec fn esc_quotes(s: Seq<char>) -> Seq<char>
    decreases s.len(),
{
    if s.len() == 0 {
        Seq::empty()
    } else {
        (if s[0] == '"' {
            seq!['"', '"']
        } else {
            seq![s[0]]
        }) + esc_quotes(s.drop_first())
    }
}

/// The written form of one field.
pub open spec fn csv_field(s: Seq<char>) -> Seq<char> {
    if needs_quoting(s) {
        seq!['"'] + esc_quotes(s) + seq!['"']
    } else {
        s
    }
}

/// Read an unquoted field: everything up to the next comma or line
/// break; a stray quote is malformed.
pub open spec fn parse_unquoted(s: Seq<char>, acc: Seq<char>) -> Option<(Seq<char>, Seq<char>, bool)>
    decreases s.len(),
{
    if s.len() == 0 {
        Some((acc, Seq::empty(), false))
    } else if s[0] == ',' {
        Some((acc, s.drop_first(), true))
    } else if s[0] == '\n' {
        Some((acc, s.drop_first(), false))
    } else if s[0] == '"' {
        None
    } else {
        parse_unquoted(s.drop_first(), acc.push(s[0]))
    }
}

/// Read the inside of a quoted field: a doubled quote stands for one
/// quote, a single quote closes the field and must be followed by a
/// comma, a line break or the end.
pub open spec fn parse_quoted(s: Seq<char>, acc: Seq<char>) -> Option<(Seq<char>, Seq<char>, bool)>
    decreases s.len(),
{
    if s.len() == 0 {
        None
    } else if s[0] == '"' {
        if s.len() >= 2 && s[1] == '"' {
            parse_quoted(s.skip(2), acc.push('"'))
        } else if s.len() == 1 {
            Some((acc, Seq::empty(), false))
        } else if s[1] == ',' {
            Some((acc, s.skip(2), true))
        } else if s[1] == '\n' {
            Some((acc, s.skip(2), false))
        } else {
            None
        }
    } else {
        parse_quoted(s.drop_first(), acc.push(s[0]))
    }
}

/// Read one field; the boolean says whether a comma followed it (more
/// fields in this row).
pub open spec fn parse_field(s: Seq<char>) -> Option<(Seq<char>, Seq<char>, bool)> {
    if s.len() > 0 && s[0] == '"' {
        parse_quoted(s.drop_first(), Seq::empty())
    } else {
        parse_unquoted(s, Seq::empty())
    }
}

/// A manifest row's four fields.
pub type RawRow = (Seq<char>, Seq<char>, Seq<char>, Seq<char>);

/// Read one row of exactly four fields ended by a line break or the end
/// of the text.
pub open spec fn parse_row(s: Seq<char>) -> Option<(RawRow, Seq<char>)> {
    match parse_field(s) {
        None => None,
        Some((f0, r0, m0)) => if !m0 {
            None
        } else {
            match parse_field(r0) {
                None => None,
                Some((f1, r1, m1)) => if !m1 {
                    None
                } else {
                    match parse_field(r1) {
                        None => None,
                        Some((f2, r2, m2)) => if !m2 {
                            None
                        } else {
                            match parse_field(r2) {
                                None => None,
                                Some((f3, r3, m3)) => if m3 {
                                    None
                                } else {
                                    Some(((f0, f1, f2, f3), r3))
                                },
                            }
                        },
                    }
                },
            }
        },
    }
}

/// Reading a field consumes at least the delimiter when more fields
/// follow, and never grows the text.
proof fn lemma_parse_field_shrinks(s: Seq<char>)
    ensures
        parse_field(s) matches Some((f, r, m)) ==> r.len() <= s.len() && (m ==> r.len() < s.len()),
{
    lemma_parse_unquoted_shrinks(s, Seq::empty());
    if s.len() > 0 && s[0] == '"' {
        lemma_parse_quoted_shrinks(s.drop_first(), Seq::empty());
    }
}

proof fn lemma_parse_unquoted_shrinks(s: Seq<char>, acc: Seq<char>)
    ensures
        parse_unquoted(s, acc) matches Some((f, r, m)) ==> r.len() <= s.len() && (m ==> r.len()
            < s.len()),
    decreases s.len(),
{
    if s.len() > 0 && s[0] != ',' && s[0] != '\n' && s[0] != '"' {
        lemma_parse_unquoted_shrinks(s.drop_first(), acc.push(s[0]));
    }
}

proof fn lemma_parse_quoted_shrinks(s: Seq<char>, acc: Seq<char>)
    ensures
        parse_quoted(s, acc) matches Some((f, r, m)) ==> r.len() < s.len(),
    decreases s.len(),
{
    if s.len() == 0 {
    } else if s[0] == '"' {
        if s.len() >= 2 && s[1] == '"' {
            lemma_parse_quoted_shrinks(s.skip(2), acc.push('"'));
        }
    } else {
        lemma_parse_quoted_shrinks(s.drop_first(), acc.push(s[0]));
    }
}

/// Reading a row always consumes text.
pub proof fn lemma_parse_row_shrinks(s: Seq<char>)
    ensures
        parse_row(s) matches Some((row, r)) ==> r.len() < s.len(),
{
    if parse_row(s) is Some {
        let (f0, r0, m0) = parse_field(s).unwrap();
        lemma_parse_field_shrinks(s);
        let (f1, r1, m1) = parse_field(r0).unwrap();
        lemma_parse_field_shrinks(r0);
        let (f2, r2, m2) = parse_field(r1).unwrap();
        lemma_parse_field_shrinks(r1);
        let (f3, r3, m3) = parse_field(r2).unwrap();
        lemma_parse_field_shrinks(r2);
    }
}

/// Read every remaining row.
pub open spec fn parse_rows(s: Seq<char>) -> Option<Seq<RawRow>>
    decreases s.len(),
    when s.len() >= 0
    via parse_rows_decreases
{
    if s.len() == 0 {
        Some(Seq::empty())
    } else {
        match parse_row(s) {
            None => None,
            Some((row, rest)) => match parse_rows(rest) {
                None => None,
                Some(rows) => Some(seq![row] + rows),
            },
        }
    }
}

#[via_fn]
proof fn parse_rows_decreases(s: Seq<char>) {
    lemma_parse_row_shrinks(s);
}

/// The manifest header row.
pub open spec fn header_text() -> Seq<char> {
    "name,postscript_name,codepoints,opentype_category\n"@
}

/// The written form of one manifest row.
pub open spec fn row_text(row: RawRow) -> Seq<char> {
    csv_field(row.0) + seq![','] + csv_field(row.1) + seq![','] + csv_field(row.2) + seq![',']
        + csv_field(row.3) + seq!['\n']
}

/// The written form of a manifest's rows.
pub open spec fn rows_text(rows: Seq<RawRow>) -> Seq<char>
    decreases rows.len(),
{
    if rows.len() == 0 {
        Seq::empty()
    } else {
        row_text(rows[0]) + rows_text(rows.drop_first())
    }
}

/// The written form of a whole manifest.
pub open spec fn manifest_text(rows: Seq<RawRow>) -> Seq<char> {
    header_text() + rows_text(rows)
}

/// What a manifest text holds: its rows, provided the header is exactly
/// the fixed one.
pub open spec fn parse_manifest(s: Seq<char>) -> Option<Seq<RawRow>> {
    if s.len() >= header_text().len() && s.take(header_text().len() as int) == header_text() {
        parse_rows(s.skip(header_text().len() as int))
    } else {
        None
    }
}

/// Append one field in written form.
fn push_csv_field(out: &mut Vec<char>, field: &str)
    ensures
        final(out)@ == old(out)@ + csv_field(field@),
{
    let v = chars_of_str(field);
    let n = v.len();
    let mut quote = false;
    let mut i: usize = 0;
    while i < n
        invariant
            n == v@.len(),
            v@ == field@,
            i <= n,
            quote == exists|j: int|
                0 <= j < i && ((#[trigger] field@[j]) == ',' || field@[j] == '"' || field@[j]
                    == '\n' || field@[j] == '\r'),
        decreases n - i,
    {
        let c = v[i];
        if c == ',' || c == '"' || c == '\n' || c == '\r' {
            quote = true;
        }
        i = i + 1;
    }
    proof {
        assert(quote == needs_quoting(field@));
    }
    if !quote {
        let mut k: usize = 0;
        while k < n
            invariant
                n == v@.len(),
                v@ == field@,
                k <= n,
                out@ == old(out)@ + field@.take(k as int),
            decreases n - k,
        {
            out.push(v[k]);
            proof {
                assert(old(out)@ + field@.take(k + 1) =~= (old(out)@ + field@.take(k as int)).push(
                    field@[k as int],
                ));
            }
            k = k + 1;
        }
        proof {
            assert(field@.take(n as int) =~= field@);
        }
    } else {
        out.push('"');
        let mut k: usize = 0;
        while k < n
            invariant
                n == v@.len(),
                v@ == field@,
                k <= n,
                out@ == old(out)@ + seq!['"'] + esc_quotes(field@.take(k as int)),
            decreases n - k,
        {
            let c = v[k];
            proof {
                lemma_esc_quotes_snoc(field@.take(k + 1));
                assert(field@.take(k + 1).drop_last() =~= field@.take(k as int));
                assert(field@.take(k + 1).last() == field@[k as int]);
            }
            if c == '"' {
                out.push('"');
                out.push('"');
            } else {
                out.push(c);
            }
            proof {
                assert(out@ =~= old(out)@ + seq!['"'] + esc_quotes(field@.take(k + 1)));
            }
            k = k + 1;
        }
        out.push('"');
        proof {
            assert(field@.take(n as int) =~= field@);
            assert(out@ =~= old(out)@ + (seq!['"'] + esc_quotes(field@) + seq!['"']));
        }
    }
}

/// Splitting the last character off a field splits its escaped form.
proof fn lemma_esc_quotes_snoc(s: Seq<char>)
    requires
        s.len() > 0,
    ensures
        esc_quotes(s) == esc_quotes(s.drop_last()) + (if s.last() == '"' {
            seq!['"', '"']
        } else {
            seq![s.last()]
        }),
    decreases s.len(),
{
    if s.len() == 1 {
        assert(s.drop_first() =~= Seq::<char>::empty());
        assert(s.drop_last() =~= Seq::<char>::empty());
        assert(esc_quotes(s) =~= esc_quotes(s.drop_last()) + (if s.last() == '"' {
            seq!['"', '"']
        } else {
            seq![s.last()]
        }));
    } else {
        lemma_esc_quotes_snoc(s.drop_first());
        assert(s.drop_first().drop_last() =~= s.drop_last().drop_first());
        assert(s.drop_first().last() == s.last());
        assert(s.drop_last()[0] == s[0]);
        assert(esc_quotes(s) =~= esc_quotes(s.drop_last()) + (if s.last() == '"' {
            seq!['"', '"']
        } else {
            seq![s.last()]
        }));
    }
}

/// Append one row in written form.
fn push_csv_row(out: &mut Vec<char>, f0: &str, f1: &str, f2: &str, f3: &str)
    ensures
        final(out)@ == old(out)@ + row_text((f0@, f1@, f2@, f3@)),
{
    push_csv_field(out, f0);
    out.push(',');
    push_csv_field(out, f1);
    out.push(',');
    push_csv_field(out, f2);
    out.push(',');
    push_csv_field(out, f3);
    out.push('\n');
    proof {
        assert(out@ =~= old(out)@ + row_text((f0@, f1@, f2@, f3@)));
    }
}

/// The view of a vector of exec rows.
pub open spec fn rows_view(rows: Seq<(String, String, String, String)>) -> Seq<RawRow> {
    rows.map_values(|r: (String, String, String, String)| (r.0@, r.1@, r.2@, r.3@))
}

/// Write a whole manifest: the fixed header, then one row per entry.
pub fn manifest_to_text(rows: &Vec<(String, String, String, String)>) -> (r: String)
    ensures
        r@ == manifest_text(rows_view(rows@)),
{
    let mut out: Vec<char> = chars_of_str("name,postscript_name,codepoints,opentype_category\n");
    proof {
        assert(out@ =~= header_text());
    }
    let n = rows.len();
    let mut i: usize = 0;
    proof {
        assert(rows_text(rows_view(rows@).take(0)) =~= Seq::<char>::empty());
        assert(out@ + Seq::<char>::empty() =~= out@);
    }
    while i < n
        invariant
            n == rows@.len(),
            i <= n,
            out@ == header_text() + rows_text(rows_view(rows@).take(i as int)),
        decreases n - i,
    {
        proof {
            lemma_rows_text_snoc(rows_view(rows@).take(i + 1));
            assert(rows_view(rows@).take(i + 1).drop_last() =~= rows_view(rows@).take(i as int));
            assert(rows_view(rows@).take(i + 1).last() == rows_view(rows@)[i as int]);
        }
        let row = &rows[i];
        push_csv_row(&mut out, row.0.as_str(), row.1.as_str(), row.2.as_str(), row.3.as_str());
        proof {
            assert(out@ =~= header_text() + rows_text(rows_view(rows@).take(i + 1)));
        }
        i = i + 1;
    }
    proof {
        assert(rows_view(rows@).take(n as int) =~= rows_view(rows@));
    }
    string_of_chars(&out)
}

/// Splitting the last row off a row list splits its text at the right.
proof fn lemma_rows_text_snoc(rows: Seq<RawRow>)
    requires
        rows.len() > 0,
    ensures
        rows_text(rows) == rows_text(rows.drop_last()) + row_text(rows.last()),
    decreases rows.len(),
{
    if rows.len() == 1 {
        assert(rows.drop_first() =~= Seq::<RawRow>::empty());
        assert(rows.drop_last() =~= Seq::<RawRow>::empty());
        assert(rows_text(rows) =~= rows_text(rows.drop_last()) + row_text(rows.last()));
    } else {
        lemma_rows_text_snoc(rows.drop_first());
        assert(rows.drop_first().drop_last() =~= rows.drop_last().drop_first());
        assert(rows.drop_first().last() == rows.last());
        assert(rows.drop_last()[0] == rows[0]);
        assert(rows_text(rows) =~= rows_text(rows.drop_last()) + row_text(rows.last()));
    }
}

/// Read one field starting at position `i`.
fn take_field(v: &Vec<char>, i: usize) -> (r: Option<(Vec<char>, usize, bool)>)
    requires
        i <= v@.len(),
    ensures
        match r {
            Some((f, j, m)) => i <= j <= v@.len() && parse_field(v@.skip(i as int)) == Some(
                (f@, v@.skip(j as int), m),
            ),
            None => parse_field(v@.skip(i as int)) is None,
        },
{
    let n = v.len();
    let mut acc: Vec<char> = Vec::new();
    if i < n && v[i] == '"' {
        let mut k: usize = i + 1;
        proof {
            assert(v@.skip(i as int)[0] == v@[i as int]);
            assert(v@.skip(i as int).drop_first() =~= v@.skip(i + 1));
            assert(acc@ =~= Seq::<char>::empty());
        }
        loop
            invariant
                n == v@.len(),
                i < k <= n,
                parse_field(v@.skip(i as int)) == parse_quoted(v@.skip(k as int), acc@),
            decreases n - k,
        {
            if k >= n {
                proof {
                    assert(v@.skip(k as int).len() == 0);
                }
                return None;
            }
            let c = v[k];
            proof {
                assert(v@.skip(k as int)[0] == v@[k as int]);
                assert(v@.skip(k as int).drop_first() =~= v@.skip(k + 1));
            }
            if c == '"' {
                if k + 1 < n && v[k + 1] == '"' {
                    proof {
                        assert(v@.skip(k as int)[1] == v@[k + 1]);
                        assert(v@.skip(k as int).skip(2) =~= v@.skip(k + 2));
                    }
                    acc.push('"');
                    k = k + 2;
                } else if k + 1 == n {
                    proof {
                        assert(v@.skip(k as int).len() == 1);
                        assert(v@.skip(k + 1) =~= Seq::<char>::empty());
                    }
                    return Some((acc, n, false));
                } else {
                    proof {
                        assert(v@.skip(k as int)[1] == v@[k + 1]);
                        assert(v@.skip(k as int).len() >= 2);
                    }
                    let c2 = v[k + 1];
                    proof {
                        assert(v@.skip(k as int).skip(2) =~= v@.skip(k + 2));
                    }
                    if c2 == ',' {
                        return Some((acc, k + 2, true));
                    } else if c2 == '\n' {
                        return Some((acc, k + 2, false));
                    } else {
                        return None;
                    }
                }
            } else {
                acc.push(c);
                k = k + 1;
            }
        }
    } else {
        let mut k: usize = i;
        proof {
            assert(acc@ =~= Seq::<char>::empty());
            if i < n {
                assert(v@.skip(i as int)[0] == v@[i as int]);
            } else {
                assert(v@.skip(i as int).len() == 0);
            }
        }
        loop
            invariant
                n == v@.len(),
                i <= k <= n,
                parse_field(v@.skip(i as int)) == parse_unquoted(v@.skip(k as int), acc@),
            decreases n - k,
        {
            if k >= n {
                proof {
                    assert(v@.skip(k as int).len() == 0);
                }
                return Some((acc, n, false));
            }
            let c = v[k];
            proof {
                assert(v@.skip(k as int)[0] == v@[k as int]);
                assert(v@.skip(k as int).drop_first() =~= v@.skip(k + 1));
            }
            if c == ',' {
                return Some((acc, k + 1, true));
            } else if c == '\n' {
                return Some((acc, k + 1, false));
            } else if c == '"' {
                return None;
            } else {
                acc.push(c);
                k = k + 1;
            }
        }
    }
}

/// Read one four-field row starting at position `i`.
fn take_row(v: &Vec<char>, i: usize) -> (r: Option<((String, String, String, String), usize)>)
    requires
        i <= v@.len(),
    ensures
        match r {
            Some((row, j)) => i <= j <= v@.len() && parse_row(v@.skip(i as int)) == Some(
                ((row.0@, row.1@, row.2@, row.3@), v@.skip(j as int)),
            ),
            None => parse_row(v@.skip(i as int)) is None,
        },
{
    let r0 = take_field(v, i);
    match r0 {
        None => None,
        Some((f0, j0, m0)) => {
            if !m0 {
                return None;
            }
            match take_field(v, j0) {
                None => None,
                Some((f1, j1, m1)) => {
                    if !m1 {
                        return None;
                    }
                    match take_field(v, j1) {
                        None => None,
                        Some((f2, j2, m2)) => {
                            if !m2 {
                                return None;
                            }
                            match take_field(v, j2) {
                                None => None,
                                Some((f3, j3, m3)) => {
                                    if m3 {
                                        return None;
                                    }
                                    Some(
                                        (
                                            (
                                                string_of_chars(&f0),
                                                string_of_chars(&f1),
                                                string_of_chars(&f2),
                                                string_of_chars(&f3),
                                            ),
                                            j3,
                                        ),
                                    )
                                },
                            }
                        },
                    }
                },
            }
        },
    }
}

/// Read a whole manifest text back into its rows; `None` for anything
/// the writer would not produce.
pub fn text_to_manifest(s: &str) -> (r: Option<Vec<(String, String, String, String)>>)
    ensures
        match r {
            Some(rows) => parse_manifest(s@) == Some(rows_view(rows@)),
            None => parse_manifest(s@) is None,
        },
{
    let v = chars_of_str(s);
    let n = v.len();
    let header = chars_of_str("name,postscript_name,codepoints,opentype_category\n");
    let hn = header.len();
    proof {
        assert(header@ =~= header_text());
    }
    if n < hn {
        proof {
            if s@.len() >= header_text().len() {
                assert(false);
            }
        }
        return None;
    }
    let mut k: usize = 0;
    while k < hn
        invariant
            hn == header@.len(),
            header@ == header_text(),
            n == v@.len(),
            v@ == s@,
            hn <= n,
            k <= hn,
            forall|j: int| 0 <= j < k ==> s@[j] == header_text()[j],
        decreases hn - k,
    {
        if v[k] != header[k] {
            proof {
                if s@.take(header_text().len() as int) == header_text() {
                    assert(s@.take(header_text().len() as int)[k as int] == s@[k as int]);
                }
            }
            return None;
        }
        k = k + 1;
    }
    proof {
        assert(s@.take(header_text().len() as int) =~= header_text());
    }
    let mut rows: Vec<(String, String, String, String)> = Vec::new();
    let mut i: usize = hn;
    proof {
        assert(rows_view(rows@) =~= Seq::<RawRow>::empty());
        assert(Seq::<RawRow>::empty() + parse_rows(v@.skip(i as int)).unwrap() =~= parse_rows(
            v@.skip(i as int),
        ).unwrap());
    }
    while i < n
        invariant
            n == v@.len(),
            v@ == s@,
            i <= n,
            parse_manifest(s@) == match parse_rows(s@.skip(i as int)) {
                None => None::<Seq<RawRow>>,
                Some(rest) => Some(rows_view(rows@) + rest),
            },
        decreases n - i,
    {
        match take_row(&v, i) {
            None => {
                return None;
            },
            Some((row, j)) => {
                proof {
                    lemma_parse_row_shrinks(s@.skip(i as int));
                }
                let ghost oldrows = rows_view(rows@);
                rows.push(row);
                proof {
                    assert(rows_view(rows@) =~= oldrows.push((row.0@, row.1@, row.2@, row.3@)));
                    match parse_rows(s@.skip(j as int)) {
                        Some(rest) => {
                            assert(parse_rows(s@.skip(i as int)) == Some(
                                seq![((row.0@, row.1@, row.2@, row.3@))] + rest,
                            ));
                            assert(oldrows + (seq![((row.0@, row.1@, row.2@, row.3@))] + rest)
                                =~= rows_view(rows@) + rest);
                        },
                        None => {
                            assert(parse_rows(s@.skip(i as int)) is None);
                        },
                    }
                }
                i = j;
            },
        }
    }
    proof {
        assert(s@.skip(n as int) =~= Seq::<char>::empty());
        assert(rows_view(rows@) + Seq::<RawRow>::empty() =~= rows_view(rows@));
    }
    Some(rows)
}

/// Reading a quoted body: the escaped form of a field, a closing quote
/// and a delimiter read back as the field.
proof fn lemma_parse_quoted_esc(f: Seq<char>, tail: Seq<char>, acc: Seq<char>)
    requires
        tail.len() == 0 || tail[0] == ',' || tail[0] == '\n',
    ensures
        parse_quoted(esc_quotes(f) + seq!['"'] + tail, acc) == (if tail.len() == 0 {
            Some((acc + f, Seq::<char>::empty(), false))
        } else if tail[0] == ',' {
            Some((acc + f, tail.drop_first(), true))
        } else {
            Some((acc + f, tail.drop_first(), false))
        }),
    decreases f.len(),
{
    let s = esc_quotes(f) + seq!['"'] + tail;
    if f.len() == 0 {
        assert(s =~= seq!['"'] + tail);
        assert(s[0] == '"');
        if tail.len() == 0 {
            assert(s.len() == 1);
            assert(acc + f =~= acc);
        } else {
            assert(s[1] == tail[0]);
            assert(s.len() >= 2);
            assert(s[1] != '"');
            assert(s.skip(2) =~= tail.drop_first());
            assert(acc + f =~= acc);
        }
    } else if f[0] == '"' {
        assert(esc_quotes(f) =~= seq!['"', '"'] + esc_quotes(f.drop_first()));
        assert(s[0] == '"');
        assert(s[1] == '"');
        assert(s.len() >= 2);
        assert(s.skip(2) =~= esc_quotes(f.drop_first()) + seq!['"'] + tail);
        lemma_parse_quoted_esc(f.drop_first(), tail, acc.push('"'));
        assert(acc.push('"') + f.drop_first() =~= acc + f);
    } else {
        assert(esc_quotes(f) =~= seq![f[0]] + esc_quotes(f.drop_first()));
        assert(s[0] == f[0]);
        assert(s.drop_first() =~= esc_quotes(f.drop_first()) + seq!['"'] + tail);
        lemma_parse_quoted_esc(f.drop_first(), tail, acc.push(f[0]));
        assert(acc.push(f[0]) + f.drop_first() =~= acc + f);
    }
}

/// Reading an unquoted clean field up to its delimiter.
proof fn lemma_parse_unquoted_clean(f: Seq<char>, tail: Seq<char>, acc: Seq<char>)
    requires
        !needs_quoting(f),
        tail.len() == 0 || tail[0] == ',' || tail[0] == '\n',
    ensures
        parse_unquoted(f + tail, acc) == (if tail.len() == 0 {
            Some((acc + f, Seq::<char>::empty(), false))
        } else if tail[0] == ',' {
            Some((acc + f, tail.drop_first(), true))
        } else {
            Some((acc + f, tail.drop_first(), false))
        }),
    decreases f.len(),
{
    let s = f + tail;
    if f.len() == 0 {
        assert(s =~= tail);
        assert(acc + f =~= acc);
        if tail.len() > 0 {
            assert(s.drop_first() =~= tail.drop_first());
        }
    } else {
        assert(s[0] == f[0]);
        assert(f[0] != ',' && f[0] != '"' && f[0] != '\n');
        assert(s.drop_first() =~= f.drop_first() + tail);
        assert(!needs_quoting(f.drop_first())) by {
            if needs_quoting(f.drop_first()) {
                let w = choose|w: int|
                    0 <= w < f.drop_first().len() && ((#[trigger] f.drop_first()[w]) == ','
                        || f.drop_first()[w] == '"' || f.drop_first()[w] == '\n'
                        || f.drop_first()[w] == '\r');
                assert(f[w + 1] == f.drop_first()[w]);
            }
        }
        lemma_parse_unquoted_clean(f.drop_first(), tail, acc.push(f[0]));
        assert(acc.push(f[0]) + f.drop_first() =~= acc + f);
    }
}

/// Reading the written form of one field followed by a delimiter gives
/// the field back.
proof fn lemma_parse_field_csv(f: Seq<char>, tail: Seq<char>)
    requires
        tail.len() == 0 || tail[0] == ',' || tail[0] == '\n',
    ensures
        parse_field(csv_field(f) + tail) == (if tail.len() == 0 {
            Some((f, Seq::<char>::empty(), false))
        } else if tail[0] == ',' {
            Some((f, tail.drop_first(), true))
        } else {
            Some((f, tail.drop_first(), false))
        }),
{
    let s = csv_field(f) + tail;
    if needs_quoting(f) {
        assert(s =~= seq!['"'] + (esc_quotes(f) + seq!['"'] + tail));
        assert(s[0] == '"');
        assert(s.len() > 0);
        assert(s.drop_first() =~= esc_quotes(f) + seq!['"'] + tail);
        lemma_parse_quoted_esc(f, tail, Seq::empty());
        assert(Seq::<char>::empty() + f =~= f);
    } else {
        lemma_parse_unquoted_clean(f, tail, Seq::empty());
        assert(Seq::<char>::empty() + f =~= f);
        if s.len() > 0 && s[0] == '"' {
            if f.len() > 0 {
                assert(s[0] == f[0]);
                assert(needs_quoting(f));
            } else {
                assert(s =~= tail);
            }
        }
    }
}

/// Reading the written form of one row followed by anything gives the
/// row back and leaves the rest.
#[verifier::rlimit(80)]
proof fn lemma_parse_row_text(row: RawRow, rest: Seq<char>)
    ensures
        parse_row(row_text(row) + rest) == Some((row, rest)),
{
    let t1 = seq![','] + csv_field(row.1) + seq![','] + csv_field(row.2) + seq![','] + csv_field(
        row.3,
    ) + seq!['\n'] + rest;
    let t2 = seq![','] + csv_field(row.2) + seq![','] + csv_field(row.3) + seq!['\n'] + rest;
    let t3 = seq![','] + csv_field(row.3) + seq!['\n'] + rest;
    let t4 = seq!['\n'] + rest;
    assert(row_text(row) + rest =~= csv_field(row.0) + t1);
    lemma_parse_field_csv(row.0, t1);
    assert(t1.drop_first() =~= csv_field(row.1) + t2);
    lemma_parse_field_csv(row.1, t2);
    assert(t2.drop_first() =~= csv_field(row.2) + t3);
    lemma_parse_field_csv(row.2, t3);
    assert(t3.drop_first() =~= csv_field(row.3) + t4);
    lemma_parse_field_csv(row.3, t4);
    assert(t4.drop_first() =~= rest);
}

/// Reading the written form of a row list gives the rows back.
proof fn lemma_parse_rows_text(rows: Seq<RawRow>)
    ensures
        parse_rows(rows_text(rows)) == Some(rows),
    decreases rows.len(),
{
    if rows.len() == 0 {
        assert(rows_text(rows).len() == 0);
        assert(parse_rows(rows_text(rows)) == Some(Seq::<RawRow>::empty()));
        assert(Seq::<RawRow>::empty() =~= rows);
    } else {
        lemma_parse_row_text(rows[0], rows_text(rows.drop_first()));
        assert(rows_text(rows) == row_text(rows[0]) + rows_text(rows.drop_first()));
        assert(rows_text(rows).len() > 0) by {
            assert(row_text(rows[0]).len() > 0);
        }
        lemma_parse_rows_text(rows.drop_first());
        assert(seq![rows[0]] + rows.drop_first() =~= rows);
    }
}

/// Round trip: a written manifest reads back as exactly its rows.
pub proof fn lemma_manifest_roundtrip(rows: Seq<RawRow>)
    ensures
        parse_manifest(manifest_text(rows)) == Some(rows),
{
    let s = manifest_text(rows);
    assert(s.take(header_text().len() as int) =~= header_text());
    assert(s.skip(header_text().len() as int) =~= rows_text(rows));
    lemma_parse_rows_text(rows);
}

} // verus!
