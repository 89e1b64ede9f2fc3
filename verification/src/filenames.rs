//! Bijective mapping between a logical name (glyph, layer or set name,
//! arbitrary Unicode) and a filename that survives case-preserving but
//! case-insensitive filesystems: every uppercase character is followed by
//! an escape underscore in the encoded form, and a literal underscore is
//! doubled.

use vstd::prelude::*;

use crate::chars::{chars_of_str, char_is_uppercase, is_uppercase_char, string_of_chars};

verus! {

/// The encoded form of one character: an uppercase character or an
/// underscore is followed by an escape underscore, anything else passes
/// through unchanged.
pub open spec fn encoded_char(c: char) -> Seq<char> {
    if is_uppercase_char(c) {
        seq![c, '_']
    } else if c == '_' {
        seq!['_', '_']
    } else {
        seq![c]
    }
}

/// The encoded form of a whole name: the concatenation of its characters'
/// encoded forms.
pub open spec fn encoded_name(name: Seq<char>) -> Seq<char>
    decreases name.len(),
{
    if name.len() == 0 {
        Seq::empty()
    } else {
        encoded_char(name[0]) + encoded_name(name.drop_first())
    }
}

/// One step of decoding: given the characters already produced and the
/// state of the two look-behind flags, consume one character.
/// An underscore that follows an uppercase character or an (already
/// consumed) doubled underscore is an escape marker and is dropped;
/// everything else is kept.
pub open spec fn decode_step(
    acc: Seq<char>,
    prev_upper: bool,
    prev_under: bool,
    c: char,
) -> (Seq<char>, bool, bool) {
    if c == '_' && (prev_upper || prev_under) {
        (acc, false, false)
    } else {
        (acc.push(c), is_uppercase_char(c), c == '_')
    }
}

/// Decoding a whole filename from a given state, left to right.
pub open spec fn decoded_from(
    acc: Seq<char>,
    prev_upper: bool,
    prev_under: bool,
    filename: Seq<char>,
) -> Seq<char>
    decreases filename.len(),
{
    if filename.len() == 0 {
        acc
    } else {
        let (acc2, up2, un2) = decode_step(acc, prev_upper, prev_under, filename[0]);
        decoded_from(acc2, up2, un2, filename.drop_first())
    }
}

/// The decoded form of a whole filename.
pub open spec fn decoded_name(filename: Seq<char>) -> Seq<char> {
    decoded_from(Seq::empty(), false, false, filename)
}

/// Transform a name such that it can be written to case-preserving but
/// case-insensitive filesystems without overwriting something else.
pub fn name_to_filename(name: &str) -> (filename: String)
    ensures
        filename@ == encoded_name(name@),
{
    let name_chars = chars_of_str(name);
    let mut out: Vec<char> = Vec::new();
    let n = name_chars.len();
    let mut i: usize = 0;
    while i < n
        invariant
            n == name_chars.len(),
            i <= n,
            name_chars@ == name@,
            out@ == encoded_name(name@.take(i as int)),
        decreases n - i,
    {
        let c = name_chars[i];
        if char_is_uppercase(c) {
            out.push(c);
            out.push('_');
        } else if c == '_' {
            out.push('_');
            out.push('_');
        } else {
            out.push(c);
        }
        proof {
            lemma_encoded_name_snoc(name@.take(i + 1));
            assert(name@.take(i + 1).drop_last() =~= name@.take(i as int));
            assert(name@.take(i + 1).last() == name@[i as int]);
        }
        i = i + 1;
    }
    proof {
        assert(name@.take(n as int) =~= name@);
    }
    string_of_chars(&out)
}

/// Transform a filename back into the name it was made from.
pub fn filename_to_name(filename: &str) -> (name: String)
    ensures
        name@ == decoded_name(filename@),
{
    let filename_chars = chars_of_str(filename);
    let mut out: Vec<char> = Vec::new();
    let mut previous_char_was_uppercase = false;
    let mut previous_char_was_underscore = false;
    let n = filename_chars.len();
    let mut i: usize = 0;
    proof {
        assert(filename@.skip(0) =~= filename@);
    }
    while i < n
        invariant
            n == filename_chars.len(),
            i <= n,
            filename_chars@ == filename@,
            decoded_from(
                out@,
                previous_char_was_uppercase,
                previous_char_was_underscore,
                filename@.skip(i as int),
            ) == decoded_name(filename@),
        decreases n - i,
    {
        let c = filename_chars[i];
        proof {
            assert(filename@.skip(i as int)[0] == filename@[i as int]);
            assert(filename@.skip(i as int).drop_first() =~= filename@.skip(i + 1));
        }
        if c == '_' && (previous_char_was_uppercase || previous_char_was_underscore) {
            previous_char_was_uppercase = false;
            previous_char_was_underscore = false;
        } else {
            out.push(c);
            previous_char_was_uppercase = char_is_uppercase(c);
            previous_char_was_underscore = c == '_';
        }
        i = i + 1;
    }
    proof {
        assert(filename@.skip(n as int) =~= Seq::<char>::empty());
    }
    string_of_chars(&out)
}

/// Splitting the last character off a name splits its encoding.
proof fn lemma_encoded_name_snoc(name: Seq<char>)
    requires
        name.len() > 0,
    ensures
        encoded_name(name) == encoded_name(name.drop_last()) + encoded_char(name.last()),
    decreases name.len(),
{
    if name.len() == 1 {
        assert(name.drop_first() =~= Seq::<char>::empty());
        assert(name.drop_last() =~= Seq::<char>::empty());
        assert(encoded_name(name) =~= encoded_name(name.drop_last()) + encoded_char(name.last()));
    } else {
        lemma_encoded_name_snoc(name.drop_first());
        assert(name.drop_first().drop_last() =~= name.drop_last().drop_first());
        assert(name.drop_first().last() == name.last());
        assert(name.drop_last()[0] == name[0]);
        assert(encoded_name(name) == encoded_char(name[0]) + encoded_name(name.drop_first()));
        assert(encoded_char(name[0]) + (encoded_name(name.drop_first().drop_last())
            + encoded_char(name.last())) =~= (encoded_char(name[0]) + encoded_name(
            name.drop_last().drop_first(),
        )) + encoded_char(name.last()));
    }
}

/// Decoding distributes over concatenation of the input.
proof fn lemma_decoded_from_append(
    acc: Seq<char>,
    prev_upper: bool,
    prev_under: bool,
    a: Seq<char>,
    b: Seq<char>,
)
    ensures
        decoded_from(acc, prev_upper, prev_under, a + b) == {
            let mid = decode_chunk(acc, prev_upper, prev_under, a);
            decoded_from(mid.0, mid.1, mid.2, b)
        },
    decreases a.len(),
{
    if a.len() == 0 {
        assert(a + b =~= b);
    } else {
        let (acc2, up2, un2) = decode_step(acc, prev_upper, prev_under, a[0]);
        assert((a + b).drop_first() =~= a.drop_first() + b);
        lemma_decoded_from_append(acc2, up2, un2, a.drop_first(), b);
    }
}

/// The full decoder state (output and both flags) after consuming a chunk.
pub open spec fn decode_chunk(
    acc: Seq<char>,
    prev_upper: bool,
    prev_under: bool,
    chunk: Seq<char>,
) -> (Seq<char>, bool, bool)
    decreases chunk.len(),
{
    if chunk.len() == 0 {
        (acc, prev_upper, prev_under)
    } else {
        let (acc2, up2, un2) = decode_step(acc, prev_upper, prev_under, chunk[0]);
        decode_chunk(acc2, up2, un2, chunk.drop_first())
    }
}

/// Consuming the encoding of one character from a fresh state appends
/// exactly that character and returns to a fresh state.
proof fn lemma_decode_chunk_of_encoded_char(acc: Seq<char>, c: char)
    ensures
        decode_chunk(acc, false, false, encoded_char(c)) == (acc.push(c), false, false),
{
    reveal_with_fuel(decode_chunk, 4);
    if is_uppercase_char(c) {
        let e = seq![c, '_'];
        assert(e[0] == c);
        assert(e.drop_first() =~= seq!['_']);
        assert(seq!['_'][0] == '_');
        assert(seq!['_'].drop_first() =~= Seq::<char>::empty());
    } else if c == '_' {
        let e = seq!['_', '_'];
        assert(e[0] == '_');
        assert(e.drop_first() =~= seq!['_']);
        assert(seq!['_'][0] == '_');
        assert(seq!['_'].drop_first() =~= Seq::<char>::empty());
    } else {
        let e = seq![c];
        assert(e[0] == c);
        assert(e.drop_first() =~= Seq::<char>::empty());
    }
}

/// Round trip from any already-produced prefix: decoding the encoding of
/// `name` from a fresh state appends exactly `name`.
proof fn lemma_decode_of_encode_from(acc: Seq<char>, name: Seq<char>)
    ensures
        decoded_from(acc, false, false, encoded_name(name)) == acc + name,
    decreases name.len(),
{
    if name.len() == 0 {
        assert(decoded_from(acc, false, false, encoded_name(name)) == acc);
        assert(acc + name =~= acc);
    } else {
        let c = name[0];
        let rest = name.drop_first();
        lemma_decoded_from_append(acc, false, false, encoded_char(c), encoded_name(rest));
        lemma_decode_chunk_of_encoded_char(acc, c);
        lemma_decode_of_encode_from(acc.push(c), rest);
        assert(acc.push(c) + rest =~= acc + name);
    }
}

/// Round trip: decoding an encoded name yields the name back, for every
/// name.
pub proof fn lemma_filename_roundtrip(name: Seq<char>)
    ensures
        decoded_name(encoded_name(name)) == name,
{
    lemma_decode_of_encode_from(Seq::empty(), name);
    assert(Seq::<char>::empty() + name =~= name);
}

/// The encoding is injective: two names that encode to the same
/// filename are the same name. In particular a name and any
/// differently-cased variant of it encode to different filenames.
pub proof fn lemma_filename_encoding_injective(a: Seq<char>, b: Seq<char>)
    requires
        encoded_name(a) == encoded_name(b),
    ensures
        a == b,
{
    lemma_filename_roundtrip(a);
    lemma_filename_roundtrip(b);
}

} // verus!
