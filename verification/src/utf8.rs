//! Places in a text by bytes of its UTF-8 form.
use vstd::prelude::*;
use vstd::utf8::{encode_scalar, encode_utf8};
use crate::text::text_bytes;

verus! {

/// Bytes of a character.
pub open spec fn char_len(c: char) -> nat {
    encode_scalar(c as u32).len()
}

/// Bytes of a character.
pub fn char_bytes(c: char) -> (n: usize)
    ensures
        n == char_len(c),
        1 <= n <= 4,
{
    let u = c as u32;
    if u < 0x80 {
        1
    } else if u < 0x800 {
        2
    } else if u < 0x10000 {
        3
    } else {
        4
    }
}

/// A text has at least one byte for each character.
pub proof fn lemma_char_len(c: char)
    ensures
        1 <= char_len(c) <= 4,
{
}

/// The bytes of two texts, one behind the other.
pub proof fn lemma_bytes_of_concat(a: Seq<char>, b: Seq<char>)
    ensures
        text_bytes(a + b) == text_bytes(a) + text_bytes(b),
        encode_utf8(a + b) == encode_utf8(a) + encode_utf8(b),
    decreases a.len(),
{
    if a.len() == 0 {
        assert(a + b =~= b);
        assert(encode_utf8(a) + encode_utf8(b) =~= encode_utf8(b));
    } else {
        lemma_bytes_of_concat(a.drop_first(), b);
        assert((a + b).drop_first() =~= a.drop_first() + b);
        assert(encode_utf8(a + b) =~= encode_utf8(a) + encode_utf8(b));
    }
}

/// The bytes of a text and one more character.
pub proof fn lemma_bytes_of_push(a: Seq<char>, c: char)
    ensures
        text_bytes(a.push(c)) == text_bytes(a) + char_len(c),
{
    let one = seq![c];
    assert(a.push(c) =~= a + one);
    lemma_bytes_of_concat(a, one);
    assert(one.drop_first() =~= Seq::<char>::empty());
    assert(encode_utf8(one.drop_first()).len() == 0);
}

/// A longer part of a text has at least as many bytes.
pub proof fn lemma_bytes_of_take(text: Seq<char>, m: int, n: int)
    requires
        0 <= m <= n <= text.len(),
    ensures
        text_bytes(text.take(m)) + (n - m) <= text_bytes(text.take(n)),
        text_bytes(text.take(n)) <= text_bytes(text),
    decreases n - m,
{
    if m < n {
        lemma_bytes_of_take(text, m, n - 1);
        assert(text.take(n) =~= text.take(n - 1).push(text[n - 1]));
        lemma_bytes_of_push(text.take(n - 1), text[n - 1]);
        lemma_char_len(text[n - 1]);
    }
    assert(text =~= text.take(n) + text.skip(n));
    lemma_bytes_of_concat(text.take(n), text.skip(n));
}

/// `byte` is where character `k` of a text begins.
pub open spec fn begins_at(text: Seq<char>, k: int, byte: usize) -> bool {
    0 <= k <= text.len() && text_bytes(text.take(k)) == byte
}

/// `byte` is where some character of a text begins, or its end.
pub open spec fn is_boundary(text: Seq<char>, byte: usize) -> bool {
    exists|k: int| #[trigger] begins_at(text, k, byte)
}

/// The character that begins at `byte`.
pub open spec fn char_at_byte(text: Seq<char>, byte: usize) -> int {
    choose|k: int| #[trigger] begins_at(text, k, byte)
}

/// Only one character begins at a place.
pub proof fn lemma_one_beginning(text: Seq<char>, a: int, b: int, byte: usize)
    requires
        begins_at(text, a, byte),
        begins_at(text, b, byte),
    ensures
        a == b,
{
    if a < b {
        lemma_bytes_of_take(text, a, b);
    } else if b < a {
        lemma_bytes_of_take(text, b, a);
    }
}

/// The character of `chars` that begins at `byte`.
pub fn char_index(chars: &Vec<char>, byte: usize) -> (index: usize)
    requires
        is_boundary(chars@, byte),
    ensures
        index == char_at_byte(chars@, byte),
        begins_at(chars@, index as int, byte),
{
    let ghost k = char_at_byte(chars@, byte);
    let mut at: usize = 0;
    let mut i: usize = 0;
    proof {
        assert(chars@.take(0) =~= Seq::<char>::empty());
    }
    while at < byte
        invariant
            begins_at(chars@, k, byte),
            i <= k <= chars@.len(),
            at <= byte,
            at == text_bytes(chars@.take(i as int)),
        decreases byte - at,
    {
        proof {
            if i == k {
                assert(false);
            }
            assert(chars@.take(i + 1) =~= chars@.take(i as int).push(chars@[i as int]));
            lemma_bytes_of_push(chars@.take(i as int), chars@[i as int]);
            lemma_bytes_of_take(chars@, i + 1, k);
        }
        assert(i < chars.len());
        at = at + char_bytes(chars[i]);
        i += 1;
    }
    proof {
        assert(begins_at(chars@, i as int, byte));
        lemma_one_beginning(chars@, i as int, k, byte);
    }
    i
}

} // verus!
