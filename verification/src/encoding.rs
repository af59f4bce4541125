use vstd::prelude::*;
use vstd::utf8::{
    encode_scalar, encode_utf8, is_char_boundary, length_of_first_scalar, pop_first_scalar,
};

verus! {

/// UTF-8 encoding distributes over concatenation of character sequences.
pub proof fn lemma_encode_utf8_concat(a: Seq<char>, b: Seq<char>)
    ensures
        encode_utf8(a + b) == encode_utf8(a) + encode_utf8(b),
    decreases a.len(),
{
    if a.len() == 0 {
        assert(a + b =~= b);
        assert(encode_utf8(a) =~= Seq::<u8>::empty());
        assert(encode_utf8(a) + encode_utf8(b) =~= encode_utf8(b));
    } else {
        let ab = a + b;
        assert(ab.len() > 0);
        assert(ab[0] == a[0]);
        assert(ab.drop_first() =~= a.drop_first() + b);
        lemma_encode_utf8_concat(a.drop_first(), b);
        assert(encode_utf8(ab) == encode_scalar(ab[0] as u32) + encode_utf8(ab.drop_first()));
        assert(encode_scalar(a[0] as u32) + (encode_utf8(a.drop_first()) + encode_utf8(b))
            =~= (encode_scalar(a[0] as u32) + encode_utf8(a.drop_first())) + encode_utf8(b));
    }
}

/// Within the encoding of `a + b`, the end of `a`'s encoding falls on a
/// character boundary.
pub proof fn lemma_encode_prefix_is_char_boundary(a: Seq<char>, b: Seq<char>)
    ensures
        is_char_boundary(encode_utf8(a + b), encode_utf8(a).len() as int),
    decreases a.len(),
{
    broadcast use vstd::utf8::encode_utf8_valid_utf8;

    lemma_encode_utf8_concat(a, b);
    if a.len() == 0 {
        assert(encode_utf8(a).len() == 0);
        assert(is_char_boundary(encode_utf8(a + b), 0));
    } else {
        let ab = a + b;
        let bytes = encode_utf8(ab);
        vstd::utf8::encode_utf8_first_scalar(ab);
        vstd::utf8::char_is_scalar(ab[0]);
        assert(ab[0] == a[0]);
        assert(ab.drop_first() =~= a.drop_first() + b);
        lemma_encode_prefix_is_char_boundary(a.drop_first(), b);
        let flen = encode_scalar(ab[0] as u32).len() as int;
        assert(length_of_first_scalar(bytes) == flen);
        assert(pop_first_scalar(bytes) =~= encode_utf8(ab.drop_first()));
        assert(encode_utf8(a) == encode_scalar(a[0] as u32) + encode_utf8(a.drop_first()));
        assert(encode_utf8(a).len() as int - flen == encode_utf8(a.drop_first()).len() as int);
        assert(encode_utf8(a).len() as int >= flen);
    }
}

} // verus!
