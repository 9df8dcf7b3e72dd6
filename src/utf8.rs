//! UTF-8 facts shared by the scanners and the readers.
use vstd::prelude::*;
use vstd::string::StringSliceAdditionalSpecFns;
use vstd::utf8::*;

verus! {

broadcast use vstd::string::group_string_axioms;

/// The byte length of a UTF-8 sequence whose first byte is `b`, as given by
/// the leading byte alone.
pub open spec fn width_of_leading_byte(b: u8) -> int {
    if b < 0x80 {
        1
    } else if b < 0xe0 {
        2
    } else if b < 0xf0 {
        3
    } else {
        4
    }
}

/// Returns the byte length of the codepoint whose encoding starts with `b`.
pub(crate) fn leading_byte_width(b: u8) -> (r: usize)
    ensures
        r == width_of_leading_byte(b),
        1 <= r <= 4,
{
    if b < 0x80 {
        1
    } else if b < 0xe0 {
        2
    } else if b < 0xf0 {
        3
    } else {
        4
    }
}

/// Encoding distributes over concatenation.
pub proof fn lemma_encode_concat(a: Seq<char>, b: Seq<char>)
    ensures
        encode_utf8(a + b) == encode_utf8(a) + encode_utf8(b),
    decreases a.len(),
{
    if a.len() == 0 {
        assert(a + b =~= b);
        assert(encode_utf8(a) + encode_utf8(b) =~= encode_utf8(b));
    } else {
        lemma_encode_concat(a.drop_first(), b);
        assert((a + b).drop_first() =~= a.drop_first() + b);
        assert(encode_utf8(a + b) =~= encode_utf8(a) + encode_utf8(b));
    }
}

proof fn lemma_encode_scalar_nonempty(c: char)
    ensures
        1 <= encode_scalar(c as u32).len() <= 4,
{
}

/// The end of an encoded prefix is a character boundary of the whole
/// encoding.
pub proof fn lemma_boundary_concat(a: Seq<char>, b: Seq<char>)
    ensures
        valid_utf8(encode_utf8(a + b)),
        is_char_boundary(encode_utf8(a + b), encode_utf8(a).len() as int),
        encode_utf8(a + b).subrange(0, encode_utf8(a).len() as int) == encode_utf8(a),
        encode_utf8(a + b).subrange(encode_utf8(a).len() as int, encode_utf8(a + b).len() as int)
            == encode_utf8(b),
    decreases a.len(),
{
    encode_utf8_valid_utf8(a + b);
    lemma_encode_concat(a, b);
    let whole = encode_utf8(a + b);
    assert(whole.subrange(0, encode_utf8(a).len() as int) =~= encode_utf8(a));
    assert(whole.subrange(encode_utf8(a).len() as int, whole.len() as int) =~= encode_utf8(b));
    if a.len() > 0 {
        let ab = a + b;
        encode_utf8_first_scalar(ab);
        lemma_encode_scalar_nonempty(ab[0]);
        lemma_boundary_concat(a.drop_first(), b);
        assert(ab.drop_first() =~= a.drop_first() + b);
        assert(pop_first_scalar(whole) =~= encode_utf8(a.drop_first() + b));
    }
}

/// The first byte of an encoding gives the length of its first codepoint.
pub proof fn lemma_first_width(s: Seq<char>)
    requires
        s.len() > 0,
    ensures
        encode_utf8(s).len() > 0,
        width_of_leading_byte(encode_utf8(s)[0]) == encode_utf8(seq![s[0]]).len(),
        s == seq![s[0]] + s.drop_first(),
{
    encode_utf8_first_scalar(s);
    lemma_encode_scalar_nonempty(s[0]);
    assert(s =~= seq![s[0]] + s.drop_first());
    lemma_encode_concat(seq![s[0]], s.drop_first());
    assert(seq![s[0]].drop_first() =~= Seq::<char>::empty());
    assert(encode_utf8(seq![s[0]]) =~= encode_scalar(s[0] as u32));
}

/// A valid prefix of a valid encoding ends on a character boundary.
pub proof fn lemma_valid_prefix_boundary(bytes: Seq<u8>, m: int)
    requires
        valid_utf8(bytes),
        0 <= m <= bytes.len(),
        valid_utf8(bytes.subrange(0, m)),
    ensures
        is_char_boundary(bytes, m),
    decreases m,
{
    if m > 0 {
        let p = bytes.subrange(0, m);
        let l = length_of_first_scalar(bytes);
        assert(p[0] == bytes[0]);
        assert(length_of_first_scalar(p) == l);
        assert(pop_first_scalar(p) =~= pop_first_scalar(bytes).subrange(0, m - l));
        lemma_valid_prefix_boundary(pop_first_scalar(bytes), m - l);
    }
}

/// The characters of a string begin with those of `e` exactly when its bytes
/// begin with the bytes of `e`.
pub proof fn lemma_prefix_bytes(s: Seq<char>, e: Seq<char>)
    ensures
        (e.len() <= s.len() && s.subrange(0, e.len() as int) == e) <==> (encode_utf8(e).len()
            <= encode_utf8(s).len() && encode_utf8(s).subrange(0, encode_utf8(e).len() as int)
            == encode_utf8(e)),
{
    let bs = encode_utf8(s);
    let be = encode_utf8(e);
    if e.len() <= s.len() && s.subrange(0, e.len() as int) == e {
        assert(s =~= e + s.subrange(e.len() as int, s.len() as int));
        lemma_boundary_concat(e, s.subrange(e.len() as int, s.len() as int));
    }
    if be.len() <= bs.len() && bs.subrange(0, be.len() as int) == be {
        let m = be.len() as int;
        encode_utf8_valid_utf8(s);
        encode_utf8_valid_utf8(e);
        lemma_valid_prefix_boundary(bs, m);
        decode_utf8_split(bs, m);
        encode_utf8_decode_utf8(s);
        encode_utf8_decode_utf8(e);
        let tail = decode_utf8(bs.subrange(m, bs.len() as int));
        assert(s == e + tail);
        assert(s.subrange(0, e.len() as int) =~= e);
    }
}

/// Two strings with the same bytes hold the same characters.
pub proof fn lemma_bytes_determine_chars(a: &str, b: Seq<char>)
    requires
        a.spec_bytes() == encode_utf8(b),
    ensures
        a@ == b,
{
    encode_utf8_decode_utf8(a@);
    encode_utf8_decode_utf8(b);
}

/// Returns whether `hay` begins with `needle`.
pub(crate) fn bytes_start_with(hay: &[u8], needle: &[u8]) -> (r: bool)
    ensures
        r == (needle@.len() <= hay@.len() && hay@.subrange(0, needle@.len() as int) == needle@),
{
    if needle.len() > hay.len() {
        return false;
    }
    let mut i: usize = 0;
    while i < needle.len()
        invariant
            needle@.len() <= hay@.len(),
            i <= needle@.len(),
            forall|j: int| 0 <= j < i ==> hay@[j] == needle@[j],
        decreases needle@.len() - i,
    {
        if hay[i] != needle[i] {
            assert(hay@.subrange(0, needle@.len() as int)[i as int] != needle@[i as int]);
            return false;
        }
        i = i + 1;
    }
    assert(hay@.subrange(0, needle@.len() as int) =~= needle@);
    true
}

/// Returns the length of `s` in bytes.
pub(crate) fn byte_len(s: &str) -> (r: usize)
    ensures
        r == s.spec_bytes().len(),
{
    s.as_bytes().len()
}

/// Returns the part of `start` that lies before its suffix `rest`.
pub(crate) fn prefix_before<'a>(start: &'a str, rest: &str) -> (r: &'a str)
    requires
        rest@.len() <= start@.len(),
        start@.subrange(start@.len() - rest@.len(), start@.len() as int) == rest@,
    ensures
        r@ == start@.subrange(0, start@.len() - rest@.len()),
{
    let ghost k = start@.len() - rest@.len();
    let ghost a = start@.subrange(0, k);
    proof {
        assert(start@ =~= a + rest@);
        lemma_boundary_concat(a, rest@);
    }
    let n = byte_len(start) - byte_len(rest);
    let (r, _) = start.split_at(n);
    proof {
        lemma_bytes_determine_chars(r, a);
    }
    r
}

/// Whether the first `n` bytes of `b` are the longest prefix of `b` that is
/// valid UTF-8.
pub open spec fn is_longest_valid_prefix(b: Seq<u8>, n: int) -> bool {
    &&& 0 <= n <= b.len()
    &&& valid_utf8(b.subrange(0, n))
    &&& forall|j: int| n < j <= b.len() ==> !valid_utf8(#[trigger] b.subrange(0, j))
}

/// `core::str::Utf8Error`, the error of `str::from_utf8`, carried as an opaque
/// value.
#[verifier::external_type_specification]
#[verifier::external_body]
pub struct ExUtf8Error(core::str::Utf8Error);

/// `str::from_utf8` succeeds exactly on valid UTF-8, and the string it
/// returns holds the given bytes.
pub assume_specification[ core::str::from_utf8 ](v: &[u8]) -> (r: Result<&str, core::str::Utf8Error>)
    ensures
        r is Ok <==> valid_utf8(v@),
        r is Ok ==> r->Ok_0.spec_bytes() == v@,
;

/// Relies on `str::from_utf8` and `Utf8Error::valid_up_to`: the latter gives
/// the largest index up to which the input is valid UTF-8.
#[verifier::external_body]
pub(crate) fn valid_prefix_len(b: &[u8]) -> (r: usize)
    ensures
        is_longest_valid_prefix(b@, r as int),
{
    match core::str::from_utf8(b) {
        Ok(s) => s.len(),
        Err(e) => e.valid_up_to(),
    }
}

/// Whether `b` is an ASCII whitespace byte: space, tab, line feed, form
/// feed or carriage return.
pub open spec fn is_ascii_space(b: u8) -> bool {
    b == 0x20 || b == 0x09 || b == 0x0a || b == 0x0c || b == 0x0d
}

/// Returns whether `b` is an ASCII whitespace byte.
pub(crate) fn ascii_space(b: u8) -> (r: bool)
    ensures
        r == is_ascii_space(b),
{
    b == 0x20 || b == 0x09 || b == 0x0a || b == 0x0c || b == 0x0d
}

/// Whether `c` is an ASCII whitespace character.
pub open spec fn is_ascii_space_char(c: char) -> bool {
    c as u32 <= 0x7f && is_ascii_space(c as u32 as u8)
}

/// The first byte of an encoding is ASCII exactly when the first character
/// is, and then it is that character.
pub proof fn lemma_ascii_first(s: Seq<char>)
    requires
        s.len() > 0,
    ensures
        encode_utf8(s).len() > 0,
        (encode_utf8(s)[0] < 0x80) <==> ((s[0] as u32) < 0x80),
        (encode_utf8(s)[0] < 0x80) ==> encode_utf8(s)[0] as u32 == s[0] as u32,
        is_ascii_space(encode_utf8(s)[0]) <==> is_ascii_space_char(s[0]),
{
    encode_utf8_first_scalar(s);
    let b = encode_utf8(s)[0];
    if b < 0x80 {
        assert((b & 0x7f) as u32 == b as u32) by (bit_vector)
            requires
                b < 0x80,
        ;
    }
}

/// Whether `c` has the Unicode `White_Space` property: U+0009 to U+000D,
/// U+0020, U+0085, U+00A0, U+1680, U+2000 to U+200A, U+2028, U+2029, U+202F,
/// U+205F and U+3000.
pub open spec fn white_space(c: char) -> bool {
    let v = c as u32;
    ||| 0x09 <= v <= 0x0d
    ||| v == 0x20
    ||| v == 0x85
    ||| v == 0xa0
    ||| v == 0x1680
    ||| 0x2000 <= v <= 0x200a
    ||| v == 0x2028
    ||| v == 0x2029
    ||| v == 0x202f
    ||| v == 0x205f
    ||| v == 0x3000
}

/// Returns whether `c` has the Unicode `White_Space` property, as
/// `char::is_whitespace` does.
pub(crate) fn is_white_space(c: char) -> (r: bool)
    ensures
        r == white_space(c),
{
    let v = c as u32;
    (0x09 <= v && v <= 0x0d) || v == 0x20 || v == 0x85 || v == 0xa0 || v == 0x1680 || (0x2000
        <= v && v <= 0x200a) || v == 0x2028 || v == 0x2029 || v == 0x202f || v == 0x205f || v
        == 0x3000
}

} // verus!
