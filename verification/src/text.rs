//! How byte offsets into UTF-8 text relate to character positions.
//!
//! A text is a sequence of characters; the buffer that holds it stores the
//! UTF-8 encoding of that sequence. The cursor and the parser address the
//! buffer by byte offset, and their contracts speak of characters. The
//! functions and lemmas here relate the two.

use vstd::prelude::*;
use vstd::string::StringSliceAdditionalSpecFns;
use vstd::utf8::*;

verus! {

/// Number of bytes that encode the character `c`.
pub open spec fn char_width(c: char) -> int {
    encode_scalar(c as u32).len() as int
}

/// Byte offset at which the character with position `k` starts in the
/// encoding of `s`; for `k == s.len()` this is the length of the encoding.
pub open spec fn offset_of(s: Seq<char>, k: int) -> int {
    encode_utf8(s.take(k)).len() as int
}

/// Whether byte offset `i` falls between two characters of `s`, or at one of
/// its ends.
pub open spec fn is_boundary(s: Seq<char>, i: int) -> bool {
    is_char_boundary(encode_utf8(s), i)
}

/// Number of characters of `s` that are encoded before byte offset `i`.
pub open spec fn chars_before(s: Seq<char>, i: int) -> int {
    decode_utf8(encode_utf8(s).subrange(0, i)).len() as int
}

/// Every character is encoded in one to four bytes.
pub proof fn lemma_char_width_bounds(c: char)
    ensures
        1 <= char_width(c) <= 4,
{
    char_is_scalar(c);
}

/// The encoding of a concatenation is the concatenation of the encodings.
pub proof fn lemma_encode_concat(a: Seq<char>, b: Seq<char>)
    ensures
        encode_utf8(a + b) == encode_utf8(a) + encode_utf8(b),
    decreases a.len(),
{
    if a.len() == 0 {
        assert(a + b =~= b);
        assert(encode_utf8(a) + encode_utf8(b) =~= encode_utf8(b));
    } else {
        lemma_encode_concat(a.drop_first(), b);
        assert((a + b).drop_first() =~= a.drop_first() + b);
        assert(encode_utf8(a + b) =~= encode_utf8(a) + encode_utf8(b));
    }
}

/// The offset of the next character is the offset of this one plus its
/// width, and both lie inside the encoding.
pub proof fn lemma_offset_step(s: Seq<char>, k: int)
    requires
        0 <= k < s.len(),
    ensures
        offset_of(s, k + 1) == offset_of(s, k) + char_width(s[k]),
        0 <= offset_of(s, k) < offset_of(s, k + 1) <= offset_of(s, s.len() as int),
{
    let head = s.take(k);
    let one = seq![s[k]];
    assert(s.take(k + 1) =~= head + one);
    lemma_encode_concat(head, one);
    assert(one.drop_first() =~= Seq::<char>::empty());
    assert(encode_utf8(one) =~= encode_scalar(s[k] as u32)) by {
        reveal_with_fuel(encode_utf8, 2);
    }
    lemma_char_width_bounds(s[k]);
    assert(s.take(s.len() as int) =~= s);
    assert(s =~= s.take(k + 1) + s.skip(k + 1));
    lemma_encode_concat(s.take(k + 1), s.skip(k + 1));
}

/// Offsets grow with positions.
pub proof fn lemma_offset_monotonic(s: Seq<char>, j: int, k: int)
    requires
        0 <= j <= k <= s.len(),
    ensures
        0 <= offset_of(s, j) <= offset_of(s, k) <= offset_of(s, s.len() as int),
        j < k ==> offset_of(s, j) < offset_of(s, k),
        offset_of(s, k) - offset_of(s, j) >= k - j,
    decreases k - j,
{
    if j < k {
        lemma_offset_step(s, j);
        lemma_offset_monotonic(s, j + 1, k);
    } else {
        assert(s.take(s.len() as int) =~= s);
        assert(s =~= s.take(k) + s.skip(k));
        lemma_encode_concat(s.take(k), s.skip(k));
    }
}

/// Dropping the first character shifts every later offset by its width.
proof fn lemma_offset_tail(s: Seq<char>, k: int)
    requires
        0 < k <= s.len(),
    ensures
        offset_of(s, k) == char_width(s[0]) + offset_of(s.drop_first(), k - 1),
        pop_first_scalar(encode_utf8(s)) == encode_utf8(s.drop_first()),
        length_of_first_scalar(encode_utf8(s)) == char_width(s[0]),
        valid_first_scalar(encode_utf8(s)),
{
    encode_utf8_first_scalar(s);
    assert(pop_first_scalar(encode_utf8(s)) =~= encode_utf8(s.drop_first()));
    let t = s.take(k);
    assert(t.drop_first() =~= s.drop_first().take(k - 1));
    assert(t[0] == s[0]);
}

/// The start of every character, and the end of the text, is a boundary, and
/// exactly `k` characters are encoded before the start of character `k`.
pub proof fn lemma_offset_is_boundary(s: Seq<char>, k: int)
    requires
        0 <= k <= s.len(),
    ensures
        is_boundary(s, offset_of(s, k)),
        chars_before(s, offset_of(s, k)) == k,
    decreases k,
{
    let bytes = encode_utf8(s);
    encode_utf8_valid_utf8(s);
    if k > 0 {
        lemma_offset_tail(s, k);
        lemma_offset_is_boundary(s.drop_first(), k - 1);
        lemma_offset_monotonic(s, 0, k);
        lemma_offset_monotonic(s, k, s.len() as int);
        assert(s.take(s.len() as int) =~= s);
    } else {
        assert(s.take(0) =~= Seq::<char>::empty());
    }
    assert(s =~= s.take(k) + s.skip(k));
    lemma_encode_concat(s.take(k), s.skip(k));
    assert(bytes.subrange(0, offset_of(s, k)) =~= encode_utf8(s.take(k)));
    encode_utf8_decode_utf8(s.take(k));
}

/// A boundary is the start of the character whose position is the number of
/// characters encoded before it.
pub proof fn lemma_boundary_is_offset(s: Seq<char>, i: int)
    requires
        is_boundary(s, i),
    ensures
        0 <= chars_before(s, i) <= s.len(),
        offset_of(s, chars_before(s, i)) == i,
        0 <= i <= offset_of(s, s.len() as int),
{
    let bytes = encode_utf8(s);
    encode_utf8_valid_utf8(s);
    encode_utf8_decode_utf8(s);
    assert(0 <= i <= bytes.len());
    valid_utf8_split(bytes, i);
    decode_utf8_split(bytes, i);
    let a = decode_utf8(bytes.subrange(0, i));
    let b = decode_utf8(bytes.subrange(i, bytes.len() as int));
    assert(s =~= a + b);
    assert(s.take(a.len() as int) =~= a);
    decode_utf8_encode_utf8(bytes.subrange(0, i));
    assert(s.take(s.len() as int) =~= s);
}

/// The text from a boundary on, decoded, is the text without the characters
/// before that boundary; likewise for the text up to a boundary.
pub proof fn lemma_split_at_boundary(s: Seq<char>, i: int)
    requires
        is_boundary(s, i),
    ensures
        encode_utf8(s).subrange(0, i) == encode_utf8(s.take(chars_before(s, i))),
        encode_utf8(s).subrange(i, encode_utf8(s).len() as int) == encode_utf8(
            s.skip(chars_before(s, i)),
        ),
{
    let k = chars_before(s, i);
    lemma_boundary_is_offset(s, i);
    assert(s =~= s.take(k) + s.skip(k));
    lemma_encode_concat(s.take(k), s.skip(k));
    let bytes = encode_utf8(s);
    assert(bytes.subrange(0, i) =~= encode_utf8(s.take(k)));
    assert(bytes.subrange(i, bytes.len() as int) =~= encode_utf8(s.skip(k)));
}

/// The bytes between two boundaries encode the characters between them.
pub proof fn lemma_slice_between(s: Seq<char>, j: int, k: int)
    requires
        0 <= j <= k <= s.len(),
    ensures
        offset_of(s, j) <= offset_of(s, k),
        encode_utf8(s).subrange(offset_of(s, j), offset_of(s, k)) == encode_utf8(
            s.subrange(j, k),
        ),
{
    lemma_offset_monotonic(s, j, k);
    let whole = s.take(k);
    assert(whole =~= s.take(j) + s.subrange(j, k));
    lemma_encode_concat(s.take(j), s.subrange(j, k));
    assert(s =~= whole + s.skip(k));
    lemma_encode_concat(whole, s.skip(k));
    assert(encode_utf8(s).subrange(offset_of(s, j), offset_of(s, k)) =~= encode_utf8(
        s.subrange(j, k),
    ));
}

/// Two texts with the same encoding are the same text.
pub proof fn lemma_encode_injective(a: Seq<char>, b: Seq<char>)
    requires
        encode_utf8(a) == encode_utf8(b),
    ensures
        a == b,
{
    encode_utf8_decode_utf8(a);
    encode_utf8_decode_utf8(b);
}

/// Whether two string slices hold the same text.
pub fn same_text(a: &str, b: &str) -> (r: bool)
    ensures
        r == (a@ == b@),
{
    let x = a.as_bytes();
    let y = b.as_bytes();
    if x.len() != y.len() {
        return false;
    }
    let mut i: usize = 0;
    while i < x.len()
        invariant
            0 <= i <= x@.len(),
            x@.len() == y@.len(),
            x@ == encode_utf8(a@),
            y@ == encode_utf8(b@),
            forall|j: int| 0 <= j < i ==> x@[j] == y@[j],
        decreases x@.len() - i,
    {
        if x[i] != y[i] {
            return false;
        }
        i += 1;
    }
    proof {
        assert(x@ =~= y@);
        lemma_encode_injective(a@, b@);
    }
    true
}

} // verus!
