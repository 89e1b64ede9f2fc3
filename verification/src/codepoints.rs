//! The manifest text of a glyph's codepoints: a space-joined list of
//! uppercase hexadecimal scalar values, four digits minimum. Parsing
//! accepts either case, rejects anything that is not a scalar value, and
//! drops duplicates; writing emits the stored codepoints in order.

use vstd::prelude::*;

use crate::chars::{char_from_u32, chars_of_str, string_of_chars};
use crate::errors::LoadError;
use vstd::string::StringExecFns;

verus! {

/// The uppercase hexadecimal digit of a value below sixteen.
pub open spec fn hexd(d: int) -> char {
    if 0 <= d < 10 {
        (('0' as int) + d) as char
    } else {
        (('A' as int) + d - 10) as char
    }
}

/// The value of a hexadecimal digit in either case; zero for any other
/// character (`is_hex_char` tells the cases apart).
pub open spec fn hex_val(c: char) -> int {
    if '0' <= c && c <= '9' {
        (c as int) - ('0' as int)
    } else if 'A' <= c && c <= 'F' {
        (c as int) - ('A' as int) + 10
    } else if 'a' <= c && c <= 'f' {
        (c as int) - ('a' as int) + 10
    } else {
        0
    }
}

/// Whether a character is a hexadecimal digit of either case.
pub open spec fn is_hex_char(c: char) -> bool {
    ('0' <= c && c <= '9') || ('A' <= c && c <= 'F') || ('a' <= c && c <= 'f')
}

/// The manifest text of one codepoint: its value in uppercase
/// hexadecimal, four digits minimum, five or six digits for values
/// beyond four digits' reach.
pub open spec fn cp_hex(v: int) -> Seq<char> {
    let d5 = hexd(v / 0x100000 % 16);
    let d4 = hexd(v / 0x10000 % 16);
    let d3 = hexd(v / 0x1000 % 16);
    let d2 = hexd(v / 0x100 % 16);
    let d1 = hexd(v / 0x10 % 16);
    let d0 = hexd(v % 16);
    if v >= 0x100000 {
        seq![d5, d4, d3, d2, d1, d0]
    } else if v >= 0x10000 {
        seq![d4, d3, d2, d1, d0]
    } else {
        seq![d3, d2, d1, d0]
    }
}

/// The manifest text of a codepoint list: the texts joined by single
/// spaces.
pub open spec fn codepoints_text(cps: Seq<char>) -> Seq<char> {
    if cps.len() == 0 {
        Seq::empty()
    } else {
        cp_hex(cps[0] as int) + codepoints_tail(cps.drop_first())
    }
}

/// The text of the codepoints after the first: each preceded by one
/// space.
pub open spec fn codepoints_tail(cps: Seq<char>) -> Seq<char>
    decreases cps.len(),
{
    if cps.len() == 0 {
        Seq::empty()
    } else {
        seq![' '] + cp_hex(cps[0] as int) + codepoints_tail(cps.drop_first())
    }
}

/// The value of a hexadecimal digit string, most significant digit
/// first; non-digits count as zero (`all_hex` tells the cases apart).
pub open spec fn hex_value(s: Seq<char>) -> int
    decreases s.len(),
{
    if s.len() == 0 {
        0
    } else {
        hex_value(s.drop_last()) * 16 + hex_val(s.last())
    }
}

/// Whether every character is a hexadecimal digit.
pub open spec fn all_hex(s: Seq<char>) -> bool {
    forall|i: int| 0 <= i < s.len() ==> is_hex_char(#[trigger] s[i])
}

/// Whether a value is a Unicode scalar value.
pub open spec fn is_scalar_value(v: int) -> bool {
    (0 <= v && v < 0xD800) || (0xE000 <= v && v <= 0x10FFFF)
}

/// The codepoint one token of a codepoint list stands for: the token
/// must be a nonempty digit string whose value is a scalar value.
pub open spec fn codepoint_of_text(s: Seq<char>) -> Option<char> {
    if s.len() > 0 && all_hex(s) && is_scalar_value(hex_value(s)) {
        Some(hex_value(s) as char)
    } else {
        None
    }
}

/// Split a text into its maximal space-free runs, with `cur` the run
/// read so far.
pub open spec fn split_from(s: Seq<char>, cur: Seq<char>) -> Seq<Seq<char>>
    decreases s.len(),
{
    if s.len() == 0 {
        if cur.len() == 0 {
            Seq::empty()
        } else {
            seq![cur]
        }
    } else if s[0] == ' ' {
        if cur.len() == 0 {
            split_from(s.drop_first(), Seq::empty())
        } else {
            seq![cur] + split_from(s.drop_first(), Seq::empty())
        }
    } else {
        split_from(s.drop_first(), cur.push(s[0]))
    }
}

/// The space-separated tokens of a text.
pub open spec fn space_tokens(s: Seq<char>) -> Seq<Seq<char>> {
    split_from(s, Seq::empty())
}

/// Parse a token list into codepoints, dropping duplicates; any bad
/// token fails the whole list.
pub open spec fn cps_fold(toks: Seq<Seq<char>>, acc: Seq<char>) -> Option<Seq<char>>
    decreases toks.len(),
{
    if toks.len() == 0 {
        Some(acc)
    } else {
        match codepoint_of_text(toks[0]) {
            None => None,
            Some(c) => cps_fold(
                toks.drop_first(),
                if acc.contains(c) {
                    acc
                } else {
                    acc.push(c)
                },
            ),
        }
    }
}

/// The codepoints a manifest codepoint field stands for, if it parses.
pub open spec fn parse_codepoints(s: Seq<char>) -> Option<Seq<char>> {
    cps_fold(space_tokens(s), Seq::empty())
}

/// The uppercase hexadecimal digit character of a value below sixteen.
pub(crate) fn hex_digit_char(d: u32) -> (c: char)
    requires
        d < 16,
    ensures
        c == hexd(d as int),
{
    match d {
        0 => '0',
        1 => '1',
        2 => '2',
        3 => '3',
        4 => '4',
        5 => '5',
        6 => '6',
        7 => '7',
        8 => '8',
        9 => '9',
        10 => 'A',
        11 => 'B',
        12 => 'C',
        13 => 'D',
        14 => 'E',
        _ => 'F',
    }
}

/// Append the hexadecimal text of one codepoint.
fn push_cp_hex(out: &mut Vec<char>, c: char)
    ensures
        final(out)@ == old(out)@ + cp_hex(c as int),
{
    let v = c as u32;
    let d5 = v / 0x100000 % 16;
    let d4 = v / 0x10000 % 16;
    let d3 = v / 0x1000 % 16;
    let d2 = v / 0x100 % 16;
    let d1 = v / 0x10 % 16;
    let d0 = v % 16;
    let ghost before = out@;
    if v >= 0x100000 {
        out.push(hex_digit_char(d5));
        out.push(hex_digit_char(d4));
        out.push(hex_digit_char(d3));
        out.push(hex_digit_char(d2));
        out.push(hex_digit_char(d1));
        out.push(hex_digit_char(d0));
        proof {
            assert(out@ =~= before + cp_hex(c as int));
        }
    } else if v >= 0x10000 {
        out.push(hex_digit_char(d4));
        out.push(hex_digit_char(d3));
        out.push(hex_digit_char(d2));
        out.push(hex_digit_char(d1));
        out.push(hex_digit_char(d0));
        proof {
            assert(out@ =~= before + cp_hex(c as int));
        }
    } else {
        out.push(hex_digit_char(d3));
        out.push(hex_digit_char(d2));
        out.push(hex_digit_char(d1));
        out.push(hex_digit_char(d0));
        proof {
            assert(out@ =~= before + cp_hex(c as int));
        }
    }
}

/// The last element split off the tail text splits it at the right.
proof fn lemma_codepoints_tail_snoc(cps: Seq<char>)
    requires
        cps.len() >= 1,
    ensures
        codepoints_tail(cps) == codepoints_tail(cps.drop_last()) + seq![' '] + cp_hex(
            cps.last() as int,
        ),
    decreases cps.len(),
{
    if cps.len() == 1 {
        assert(cps.drop_first() =~= Seq::<char>::empty());
        assert(cps.drop_last() =~= Seq::<char>::empty());
        assert(codepoints_tail(cps.drop_last()) + seq![' '] + cp_hex(cps.last() as int) =~= seq![
            ' ',
        ] + cp_hex(cps[0] as int) + codepoints_tail(cps.drop_first()));
    } else {
        lemma_codepoints_tail_snoc(cps.drop_first());
        assert(cps.drop_first().drop_last() =~= cps.drop_last().drop_first());
        assert(cps.drop_first().last() == cps.last());
        assert(cps.drop_last()[0] == cps[0]);
        assert(codepoints_tail(cps) =~= codepoints_tail(cps.drop_last()) + seq![' '] + cp_hex(
            cps.last() as int,
        ));
    }
}

/// The last element split off a codepoint list splits its text.
proof fn lemma_codepoints_text_snoc(cps: Seq<char>)
    requires
        cps.len() >= 2,
    ensures
        codepoints_text(cps) == codepoints_text(cps.drop_last()) + seq![' '] + cp_hex(
            cps.last() as int,
        ),
{
    lemma_codepoints_tail_snoc(cps.drop_first());
    assert(cps.drop_first().drop_last() =~= cps.drop_last().drop_first());
    assert(cps.drop_first().last() == cps.last());
    assert(cps.drop_last()[0] == cps[0]);
    assert(codepoints_text(cps) =~= codepoints_text(cps.drop_last()) + seq![' '] + cp_hex(
        cps.last() as int,
    ));
}

/// Write a codepoint list as its manifest text.
pub fn serialize(codepoints: &Vec<char>) -> (r: String)
    ensures
        r@ == codepoints_text(codepoints@),
{
    let mut out: Vec<char> = Vec::new();
    let n = codepoints.len();
    let mut i: usize = 0;
    while i < n
        invariant
            n == codepoints@.len(),
            i <= n,
            out@ == codepoints_text(codepoints@.take(i as int)),
        decreases n - i,
    {
        if i > 0 {
            out.push(' ');
        }
        push_cp_hex(&mut out, codepoints[i]);
        proof {
            let t = codepoints@.take(i + 1);
            assert(t.drop_last() =~= codepoints@.take(i as int));
            assert(t.last() == codepoints@[i as int]);
            if i == 0 {
                assert(out@ =~= codepoints_text(t));
            } else {
                lemma_codepoints_text_snoc(t);
                assert(out@ =~= codepoints_text(t));
            }
        }
        i = i + 1;
    }
    proof {
        assert(codepoints@.take(n as int) =~= codepoints@);
    }
    string_of_chars(&out)
}

/// The value of a hexadecimal digit character, if it is one.
pub(crate) fn hex_digit_value(c: char) -> (r: Option<u32>)
    ensures
        match r {
            Some(d) => is_hex_char(c) && d as int == hex_val(c) && d < 16,
            None => !is_hex_char(c),
        },
{
    if '0' <= c && c <= '9' {
        Some(c as u32 - 0x30)
    } else if 'A' <= c && c <= 'F' {
        Some(c as u32 - 0x41 + 10)
    } else if 'a' <= c && c <= 'f' {
        Some(c as u32 - 0x61 + 10)
    } else {
        None
    }
}

/// The value of a digit string never shrinks as the string grows.
proof fn lemma_hex_value_nonneg(s: Seq<char>)
    ensures
        hex_value(s) >= 0,
    decreases s.len(),
{
    if s.len() > 0 {
        lemma_hex_value_nonneg(s.drop_last());
        assert(hex_val(s.last()) >= 0);
    }
}

/// A prefix of a digit string never has a larger value than the whole.
proof fn lemma_hex_value_prefix(s: Seq<char>, j: int)
    requires
        0 <= j <= s.len(),
    ensures
        hex_value(s.take(j)) <= hex_value(s),
    decreases s.len() - j,
{
    if j < s.len() {
        lemma_hex_value_prefix(s, j + 1);
        let t = s.take(j + 1);
        assert(t.drop_last() =~= s.take(j));
        assert(t.last() == s[j]);
        lemma_hex_value_nonneg(s.take(j));
        assert(hex_val(s[j]) >= 0);
        assert(hex_value(s.take(j)) <= hex_value(s.take(j + 1)));
    } else {
        assert(s.take(j) =~= s);
    }
}

/// Parse one token of a codepoint list.
fn parse_codepoint_token(t: &Vec<char>) -> (r: Option<char>)
    ensures
        r == codepoint_of_text(t@),
{
    let n = t.len();
    if n == 0 {
        return None;
    }
    let mut acc: u32 = 0;
    let mut i: usize = 0;
    proof {
        assert(t@.take(0) =~= Seq::<char>::empty());
    }
    while i < n
        invariant
            n == t@.len(),
            i <= n,
            acc as int == hex_value(t@.take(i as int)),
            acc <= 0x10FFFF,
            all_hex(t@.take(i as int)),
        decreases n - i,
    {
        let c = t[i];
        proof {
            let u = t@.take(i + 1);
            assert(u.drop_last() =~= t@.take(i as int));
            assert(u.last() == t@[i as int]);
        }
        match hex_digit_value(c) {
            None => {
                proof {
                    assert(!is_hex_char(t@[i as int]));
                    assert(!all_hex(t@));
                }
                return None;
            },
            Some(d) => {
                let next = acc * 16 + d;
                if next > 0x10FFFF {
                    proof {
                        assert(hex_value(t@.take(i + 1)) > 0x10FFFF);
                        lemma_hex_value_prefix(t@, i + 1);
                        assert(hex_value(t@) > 0x10FFFF);
                        assert(!is_scalar_value(hex_value(t@)));
                    }
                    return None;
                }
                acc = next;
            },
        }
        i = i + 1;
    }
    proof {
        assert(t@.take(n as int) =~= t@);
    }
    proof {
        assert(t@.take(n as int) =~= t@);
        assert(acc as int == hex_value(t@));
        assert(all_hex(t@));
    }
    let r = char_from_u32(acc);
    proof {
        if acc < 0xD800 || acc >= 0xE000 {
            assert(is_scalar_value(acc as int));
        } else {
            assert(!is_scalar_value(hex_value(t@)));
        }
        match r {
            Some(c) => {
                assert(acc < 0xD800 || (0xE000 <= acc && acc <= 0x10FFFF));
                assert(is_scalar_value(acc as int));
                assert(c as u32 == acc);
                assert(c == (acc as int) as char);
                assert(hex_value(t@) as char == (acc as int) as char);
                assert(c == hex_value(t@) as char);
            },
            None => {},
        }
    }
    r
}

/// Whether a codepoint is already among those collected.
fn chars_contains(v: &Vec<char>, c: char) -> (r: bool)
    ensures
        r == v@.contains(c),
{
    let n = v.len();
    let mut i: usize = 0;
    while i < n
        invariant
            n == v@.len(),
            i <= n,
            forall|j: int| 0 <= j < i ==> v@[j] != c,
        decreases n - i,
    {
        if v[i] == c {
            return true;
        }
        i = i + 1;
    }
    proof {
        if v@.contains(c) {
            let w = choose|w: int| 0 <= w < v@.len() && v@[w] == c;
            assert(false);
        }
    }
    false
}

/// Read a manifest codepoint field: space-separated hexadecimal scalar
/// values, duplicates dropped. Any token that is not a scalar value
/// fails the whole field.
pub fn deserialize(s: &str) -> (r: Result<Vec<char>, LoadError>)
    ensures
        match r {
            Ok(v) => parse_codepoints(s@) == Some(v@) && crate::structs::nodup_chars(v@),
            Err(e) => parse_codepoints(s@) is None && (e matches LoadError::InvalidCodepoints(msg)
                && msg@ == s@),
        },
{
    let sv = chars_of_str(s);
    let n = sv.len();

    let mut toks: Vec<Vec<char>> = Vec::new();
    let mut cur: Vec<char> = Vec::new();
    let mut i: usize = 0;
    proof {
        assert(sv@.skip(0) =~= sv@);
        assert(toks@.map_values(|t: Vec<char>| t@) =~= Seq::<Seq<char>>::empty());
    }
    while i < n
        invariant
            n == sv@.len(),
            sv@ == s@,
            i <= n,
            space_tokens(s@) == toks@.map_values(|t: Vec<char>| t@) + split_from(
                s@.skip(i as int),
                cur@,
            ),
        decreases n - i,
    {
        let c = sv[i];
        proof {
            assert(s@.skip(i as int)[0] == s@[i as int]);
            assert(s@.skip(i as int).drop_first() =~= s@.skip(i + 1));
        }
        if c == ' ' {
            if cur.len() > 0 {
                let ghost tm = toks@.map_values(|t: Vec<char>| t@);
                let ghost curm = cur@;
                proof {
                    assert(split_from(s@.skip(i as int), curm) == seq![curm] + split_from(
                        s@.skip(i + 1),
                        Seq::<char>::empty(),
                    ));
                }
                toks.push(cur);
                cur = Vec::new();
                proof {
                    assert(toks@.map_values(|t: Vec<char>| t@) =~= tm.push(curm));
                    assert(tm + (seq![curm] + split_from(s@.skip(i + 1), Seq::<char>::empty()))
                        =~= tm.push(curm) + split_from(s@.skip(i + 1), Seq::<char>::empty()));
                    assert(cur@ =~= Seq::<char>::empty());
                }
            } else {
                proof {
                    assert(cur@ =~= Seq::<char>::empty());
                    assert(split_from(s@.skip(i as int), cur@) == split_from(
                        s@.skip(i + 1),
                        Seq::<char>::empty(),
                    ));
                }
            }
        } else {
            cur.push(c);
        }
        i = i + 1;
    }
    proof {
        assert(s@.skip(n as int) =~= Seq::<char>::empty());
    }
    if cur.len() > 0 {
        let ghost tm = toks@.map_values(|t: Vec<char>| t@);
        let ghost curm = cur@;
        proof {
            assert(split_from(Seq::<char>::empty(), curm) == seq![curm]);
        }
        toks.push(cur);
        proof {
            assert(toks@.map_values(|t: Vec<char>| t@) =~= tm.push(curm));
            assert(tm + seq![curm] =~= tm.push(curm));
        }
    } else {
        proof {
            assert(cur@ =~= Seq::<char>::empty());
            assert(split_from(Seq::<char>::empty(), cur@) == Seq::<Seq<char>>::empty());
            assert(toks@.map_values(|t: Vec<char>| t@) + Seq::<Seq<char>>::empty()
                =~= toks@.map_values(|t: Vec<char>| t@));
        }
    }
    proof {
        assert(space_tokens(s@) == toks@.map_values(|t: Vec<char>| t@));
    }

    let mut cps: Vec<char> = Vec::new();
    let m = toks.len();
    let mut k: usize = 0;
    proof {
        assert(toks@.map_values(|t: Vec<char>| t@).skip(0) =~= toks@.map_values(
            |t: Vec<char>| t@,
        ));
        assert(cps@ =~= Seq::<char>::empty());
    }
    while k < m
        invariant
            m == toks@.len(),
            k <= m,
            space_tokens(s@) == toks@.map_values(|t: Vec<char>| t@),
            parse_codepoints(s@) == cps_fold(
                toks@.map_values(|t: Vec<char>| t@).skip(k as int),
                cps@,
            ),
            crate::structs::nodup_chars(cps@),
        decreases m - k,
    {
        let ghost rem = toks@.map_values(|t: Vec<char>| t@).skip(k as int);
        proof {
            assert(rem[0] == toks@.map_values(|t: Vec<char>| t@)[k as int]);
            assert(rem.drop_first() =~= toks@.map_values(|t: Vec<char>| t@).skip(k + 1));
        }
        match parse_codepoint_token(&toks[k]) {
            None => {
                return Err(LoadError::InvalidCodepoints(String::from_str(s)));
            },
            Some(c) => {
                if !chars_contains(&cps, c) {
                    let ghost oldcps = cps@;
                    cps.push(c);
                    proof {
                        assert forall|a: int, b: int| 0 <= a < b < cps@.len() implies cps@[a]
                            != cps@[b] by {
                            if b == cps@.len() - 1 {
                                assert(!oldcps.contains(c));
                                assert(cps@[a] == oldcps[a]);
                                if cps@[a] == c {
                                    assert(oldcps.contains(c));
                                }
                            }
                        }
                    }
                }
            },
        }
        k = k + 1;
    }
    proof {
        assert(toks@.map_values(|t: Vec<char>| t@).skip(m as int) =~= Seq::<Seq<char>>::empty());
    }
    Ok(cps)
}

/// A value below sixteen, written as its digit, reads back as itself.
pub(crate) proof fn lemma_hexd_props(d: int)
    requires
        0 <= d < 16,
    ensures
        is_hex_char(hexd(d)),
        hex_val(hexd(d)) == d,
        hexd(d) != ' ',
{
    if d < 10 {
        assert((('0' as int) + d) as char as int == ('0' as int) + d);
    } else {
        assert((('A' as int) + d - 10) as char as int == ('A' as int) + d - 10);
    }
}

/// The hexadecimal text of a codepoint is nonempty, space-free, all
/// digits, and reads back as that codepoint.
proof fn lemma_cp_hex_roundtrip(c: char)
    ensures
        cp_hex(c as int).len() >= 4,
        all_hex(cp_hex(c as int)),
        forall|i: int| 0 <= i < cp_hex(c as int).len() ==> (#[trigger] cp_hex(c as int)[i]) != ' ',
        codepoint_of_text(cp_hex(c as int)) == Some(c),
{
    let v = c as u32;
    let vi = c as int;
    assert(v as int == vi);
    let x5 = vi / 0x100000 % 16;
    let x4 = vi / 0x10000 % 16;
    let x3 = vi / 0x1000 % 16;
    let x2 = vi / 0x100 % 16;
    let x1 = vi / 0x10 % 16;
    let x0 = vi % 16;
    lemma_hexd_props(x5);
    lemma_hexd_props(x4);
    lemma_hexd_props(x3);
    lemma_hexd_props(x2);
    lemma_hexd_props(x1);
    lemma_hexd_props(x0);
    assert((v / 0x100000 % 16) as int == x5);
    assert((v / 0x10000 % 16) as int == x4);
    assert((v / 0x1000 % 16) as int == x3);
    assert((v / 0x100 % 16) as int == x2);
    assert((v / 0x10 % 16) as int == x1);
    assert((v % 16) as int == x0);
    let t = cp_hex(vi);
    reveal_with_fuel(hex_value, 8);
    if vi >= 0x100000 {
        assert(t =~= seq![hexd(x5), hexd(x4), hexd(x3), hexd(x2), hexd(x1), hexd(x0)]);
        assert(t.drop_last() =~= seq![hexd(x5), hexd(x4), hexd(x3), hexd(x2), hexd(x1)]);
        assert(t.drop_last().drop_last() =~= seq![hexd(x5), hexd(x4), hexd(x3), hexd(x2)]);
        assert(t.drop_last().drop_last().drop_last() =~= seq![hexd(x5), hexd(x4), hexd(x3)]);
        assert(t.drop_last().drop_last().drop_last().drop_last() =~= seq![hexd(x5), hexd(x4)]);
        assert(t.drop_last().drop_last().drop_last().drop_last().drop_last() =~= seq![hexd(x5)]);
        assert(seq![hexd(x5)].drop_last() =~= Seq::<char>::empty());
        assert(hex_value(t) == ((((x5 * 16 + x4) * 16 + x3) * 16 + x2) * 16 + x1) * 16 + x0);
        assert(v == (v / 0x100000 % 16) * 0x100000 + (v / 0x10000 % 16) * 0x10000 + (v / 0x1000
            % 16) * 0x1000 + (v / 0x100 % 16) * 0x100 + (v / 0x10 % 16) * 0x10 + (v % 16))
            by (bit_vector)
            requires
                v < 0x110000,
        ;
        assert(hex_value(t) == vi);
    } else if vi >= 0x10000 {
        assert(t =~= seq![hexd(x4), hexd(x3), hexd(x2), hexd(x1), hexd(x0)]);
        assert(t.drop_last() =~= seq![hexd(x4), hexd(x3), hexd(x2), hexd(x1)]);
        assert(t.drop_last().drop_last() =~= seq![hexd(x4), hexd(x3), hexd(x2)]);
        assert(t.drop_last().drop_last().drop_last() =~= seq![hexd(x4), hexd(x3)]);
        assert(t.drop_last().drop_last().drop_last().drop_last() =~= seq![hexd(x4)]);
        assert(seq![hexd(x4)].drop_last() =~= Seq::<char>::empty());
        assert(hex_value(t) == (((x4 * 16 + x3) * 16 + x2) * 16 + x1) * 16 + x0);
        assert(v == (v / 0x10000 % 16) * 0x10000 + (v / 0x1000 % 16) * 0x1000 + (v / 0x100 % 16)
            * 0x100 + (v / 0x10 % 16) * 0x10 + (v % 16)) by (bit_vector)
            requires
                v < 0x100000,
        ;
        assert(hex_value(t) == vi);
    } else {
        assert(t =~= seq![hexd(x3), hexd(x2), hexd(x1), hexd(x0)]);
        assert(t.drop_last() =~= seq![hexd(x3), hexd(x2), hexd(x1)]);
        assert(t.drop_last().drop_last() =~= seq![hexd(x3), hexd(x2)]);
        assert(t.drop_last().drop_last().drop_last() =~= seq![hexd(x3)]);
        assert(seq![hexd(x3)].drop_last() =~= Seq::<char>::empty());
        assert(hex_value(t) == ((x3 * 16 + x2) * 16 + x1) * 16 + x0);
        assert(v == (v / 0x1000 % 16) * 0x1000 + (v / 0x100 % 16) * 0x100 + (v / 0x10 % 16) * 0x10
            + (v % 16)) by (bit_vector)
            requires
                v < 0x10000,
        ;
        assert(hex_value(t) == vi);
    }
    assert(is_scalar_value(vi));
    assert(hex_value(t) as char == c);
}

/// Splitting walks through a space-free run by appending it to the run
/// being read.
proof fn lemma_split_run(tok: Seq<char>, rest: Seq<char>, cur: Seq<char>)
    requires
        forall|i: int| 0 <= i < tok.len() ==> (#[trigger] tok[i]) != ' ',
    ensures
        split_from(tok + rest, cur) == split_from(rest, cur + tok),
    decreases tok.len(),
{
    if tok.len() == 0 {
        assert(tok + rest =~= rest);
        assert(cur + tok =~= cur);
    } else {
        assert((tok + rest)[0] == tok[0]);
        assert((tok + rest).drop_first() =~= tok.drop_first() + rest);
        lemma_split_run(tok.drop_first(), rest, cur.push(tok[0]));
        assert(cur.push(tok[0]) + tok.drop_first() =~= cur + tok);
    }
}

/// The tail text of a codepoint list splits into the codepoints' texts,
/// after whatever run has been read so far.
proof fn lemma_split_tail(cps: Seq<char>, cur: Seq<char>)
    requires
        cur.len() > 0,
    ensures
        split_from(codepoints_tail(cps), cur) == seq![cur] + cps.map_values(
            |c: char| cp_hex(c as int),
        ),
    decreases cps.len(),
{
    if cps.len() == 0 {
        assert(split_from(codepoints_tail(cps), cur) =~= seq![cur]);
        assert(seq![cur] + cps.map_values(|c: char| cp_hex(c as int)) =~= seq![cur]);
    } else {
        let c0 = cps[0];
        lemma_cp_hex_roundtrip(c0);
        let t = codepoints_tail(cps);
        assert(t == seq![' '] + cp_hex(c0 as int) + codepoints_tail(cps.drop_first()));
        assert(t[0] == ' ');
        assert(t.drop_first() =~= cp_hex(c0 as int) + codepoints_tail(cps.drop_first()));
        lemma_split_run(cp_hex(c0 as int), codepoints_tail(cps.drop_first()), Seq::empty());
        assert(Seq::<char>::empty() + cp_hex(c0 as int) =~= cp_hex(c0 as int));
        assert(cp_hex(c0 as int).len() > 0);
        lemma_split_tail(cps.drop_first(), cp_hex(c0 as int));
        assert(split_from(t, cur) == seq![cur] + (seq![cp_hex(c0 as int)]
            + cps.drop_first().map_values(|c: char| cp_hex(c as int))));
        assert(seq![cp_hex(c0 as int)] + cps.drop_first().map_values(|c: char| cp_hex(c as int))
            =~= cps.map_values(|c: char| cp_hex(c as int)));
        assert(seq![cur] + (seq![cp_hex(c0 as int)] + cps.drop_first().map_values(
            |c: char| cp_hex(c as int),
        )) =~= seq![cur] + cps.map_values(|c: char| cp_hex(c as int)));
    }
}

/// The text of a codepoint list splits back into the codepoints' texts.
proof fn lemma_split_text(cps: Seq<char>)
    ensures
        space_tokens(codepoints_text(cps)) == cps.map_values(|c: char| cp_hex(c as int)),
{
    if cps.len() == 0 {
        assert(space_tokens(codepoints_text(cps)) =~= cps.map_values(|c: char| cp_hex(c as int)));
    } else {
        let c0 = cps[0];
        lemma_cp_hex_roundtrip(c0);
        lemma_split_run(cp_hex(c0 as int), codepoints_tail(cps.drop_first()), Seq::empty());
        assert(Seq::<char>::empty() + cp_hex(c0 as int) =~= cp_hex(c0 as int));
        assert(cp_hex(c0 as int).len() > 0);
        lemma_split_tail(cps.drop_first(), cp_hex(c0 as int));
        assert(seq![cp_hex(c0 as int)] + cps.drop_first().map_values(|c: char| cp_hex(c as int))
            =~= cps.map_values(|c: char| cp_hex(c as int)));
    }
}

/// Folding the texts of deduplicated codepoints collects exactly those
/// codepoints, after whatever was collected before.
proof fn lemma_fold_texts(rest: Seq<char>, acc: Seq<char>)
    requires
        crate::structs::nodup_chars(acc + rest),
    ensures
        cps_fold(rest.map_values(|c: char| cp_hex(c as int)), acc) == Some(acc + rest),
    decreases rest.len(),
{
    if rest.len() == 0 {
        assert(acc + rest =~= acc);
        assert(rest.map_values(|c: char| cp_hex(c as int)).len() == 0);
    } else {
        let c0 = rest[0];
        lemma_cp_hex_roundtrip(c0);
        let toks = rest.map_values(|c: char| cp_hex(c as int));
        assert(toks[0] == cp_hex(c0 as int));
        assert(toks.drop_first() =~= rest.drop_first().map_values(|c: char| cp_hex(c as int)));
        assert(!acc.contains(c0)) by {
            if acc.contains(c0) {
                let w = choose|w: int| 0 <= w < acc.len() && acc[w] == c0;
                assert((acc + rest)[w] == c0);
                assert((acc + rest)[acc.len() as int] == c0);
            }
        }
        assert(acc.push(c0) + rest.drop_first() =~= acc + rest);
        lemma_fold_texts(rest.drop_first(), acc.push(c0));
    }
}

/// Round trip: the manifest text of a deduplicated codepoint list reads
/// back as exactly that list.
pub proof fn lemma_codepoints_roundtrip(cps: Seq<char>)
    requires
        crate::structs::nodup_chars(cps),
    ensures
        parse_codepoints(codepoints_text(cps)) == Some(cps),
{
    lemma_split_text(cps);
    assert(Seq::<char>::empty() + cps =~= cps);
    lemma_fold_texts(cps, Seq::empty());
}

} // verus!
