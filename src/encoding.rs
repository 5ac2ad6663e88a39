//! Byte-level helpers for working on the UTF-8 storage of a text buffer.
use vstd::prelude::*;
use vstd::utf8::*;

verus! {

/// Relies on `String::into_bytes`: hands over the UTF-8 bytes of the text.
#[verifier::external_body]
pub(crate) fn text_into_bytes(s: String) -> (r: Vec<u8>)
    ensures
        r@ == encode_utf8(s@),
{
    s.into_bytes()
}

/// Relies on `String::from_utf8`: takes the bytes back as text exactly when
/// they are valid UTF-8.
#[verifier::external_body]
pub(crate) fn text_from_bytes(v: Vec<u8>) -> (r: Option<String>)
    ensures
        r is Some <==> valid_utf8(v@),
        r matches Some(t) ==> encode_utf8(t@) == v@,
{
    match String::from_utf8(v) {
        Ok(t) => Some(t),
        Err(_) => None,
    }
}

/// Relies on `core::str::from_utf8`: views the bytes as text exactly when
/// they are valid UTF-8.
#[verifier::external_body]
pub(crate) fn str_from_bytes(b: &[u8]) -> (r: Option<&str>)
    ensures
        r is Some <==> valid_utf8(b@),
        r matches Some(t) ==> encode_utf8(t@) == b@,
{
    match core::str::from_utf8(b) {
        Ok(t) => Some(t),
        Err(_) => None,
    }
}

/// Number of bytes in the UTF-8 encoding of `c`.
pub fn utf8_width(c: char) -> (r: usize)
    ensures
        r as int == encode_scalar(c as u32).len(),
        1 <= r <= 4,
{
    proof {
        char_is_scalar(c);
    }
    let v = c as u32;
    if v <= 0x7F {
        1
    } else if v <= 0x7FF {
        2
    } else if v <= 0xFFFF {
        3
    } else {
        4
    }
}

/// Moves `count` bytes starting at `from` back by `dist` positions. The two
/// ranges may overlap; the destination always comes first, so a forward copy
/// reads every source byte before it can be overwritten. Bytes before the
/// destination and after the end of the written range are left as they were.
pub fn shift_back(bytes: &mut Vec<u8>, from: usize, dist: usize, count: usize)
    requires
        dist <= from,
        from + count <= old(bytes)@.len(),
    ensures
        final(bytes)@.len() == old(bytes)@.len(),
        final(bytes)@.subrange(0, from - dist) == old(bytes)@.subrange(0, from - dist),
        final(bytes)@.subrange(from - dist, from - dist + count) == old(bytes)@.subrange(
            from as int,
            from + count,
        ),
        final(bytes)@.subrange(from - dist + count, old(bytes)@.len() as int) == old(
            bytes,
        )@.subrange(from - dist + count, old(bytes)@.len() as int),
{
    let ghost orig = bytes@;
    let n = bytes.len();
    let mut k: usize = 0;
    while k < count
        invariant
            n == orig.len(),
            dist <= from,
            from + count <= orig.len(),
            k <= count,
            bytes@.len() == orig.len(),
            forall|p: int| 0 <= p < from - dist ==> bytes@[p] == orig[p],
            forall|t: int| 0 <= t < k ==> bytes@[from - dist + t] == #[trigger] orig[from + t],
            forall|p: int| from - dist + k <= p < orig.len() ==> bytes@[p] == orig[p],
        decreases count - k,
    {
        let b = bytes[from + k];
        bytes.set(from - dist + k, b);
        k += 1;
    }
    assert(bytes@.subrange(0, from - dist) =~= orig.subrange(0, from - dist));
    let ghost lo = from - dist;
    assert forall|t: int| 0 <= t < count implies #[trigger] bytes@.subrange(lo, lo + count)[t]
        == orig.subrange(from as int, from + count)[t] by {
        assert(bytes@[from - dist + t] == orig[from + t]);
    }
    assert(bytes@.subrange(from - dist, from - dist + count) =~= orig.subrange(
        from as int,
        from + count,
    ));
    assert(bytes@.subrange(from - dist + count, orig.len() as int) =~= orig.subrange(
        from - dist + count,
        orig.len() as int,
    ));
}

/// The encoding of a concatenation is the concatenation of the encodings.
pub proof fn lemma_encode_concat(a: Seq<char>, b: Seq<char>)
    ensures
        encode_utf8(a + b) == encode_utf8(a) + encode_utf8(b),
    decreases a.len(),
{
    if a.len() == 0 {
        assert(a + b =~= b);
        assert(encode_utf8(a) + encode_utf8(b) =~= encode_utf8(b));
    } else {
        assert((a + b).drop_first() =~= a.drop_first() + b);
        lemma_encode_concat(a.drop_first(), b);
        assert(encode_utf8(a + b) =~= encode_utf8(a) + encode_utf8(b));
    }
}

/// A one-character text encodes as that character's scalar encoding.
pub proof fn lemma_encode_single(c: char)
    ensures
        encode_utf8(seq![c]) == encode_scalar(c as u32),
{
    assert(seq![c].drop_first() =~= Seq::<char>::empty());
    assert(seq![c][0] == c);
    assert(encode_utf8(Seq::<char>::empty()) =~= Seq::<u8>::empty());
    assert(encode_utf8(seq![c]) =~= encode_scalar(c as u32));
}

/// The encoding is empty exactly when the text is.
pub proof fn lemma_encode_empty(s: Seq<char>)
    ensures
        encode_utf8(s).len() == 0 <==> s.len() == 0,
{
    if s.len() > 0 {
        char_is_scalar(s[0]);
    }
}

/// Encoding loses nothing: equal encodings come from equal texts.
pub proof fn lemma_encode_injective(a: Seq<char>, b: Seq<char>)
    requires
        encode_utf8(a) == encode_utf8(b),
    ensures
        a == b,
{
    encode_utf8_decode_utf8(a);
    encode_utf8_decode_utf8(b);
}

/// The end of the first character of a non-empty text is a character boundary
/// of its encoding.
pub proof fn lemma_first_char_boundary(s: Seq<char>)
    requires
        s.len() > 0,
    ensures
        is_char_boundary(encode_utf8(s), encode_scalar(s[0] as u32).len() as int),
{
    encode_utf8_first_scalar(s);
    encode_utf8_valid_utf8(s);
    char_is_scalar(s[0]);
    let bytes = encode_utf8(s);
    let w = length_of_first_scalar(bytes);
    assert(w >= 1);
    assert(is_char_boundary(pop_first_scalar(bytes), 0));
}

} // verus!
