use vstd::prelude::*;
use vstd::string::StrSliceExecFns;
use vstd::utf8::{
    decode_utf8, encode_scalar, encode_utf8, encode_utf8_decode_utf8, encode_utf8_first_scalar,
    encode_utf8_valid_utf8, is_char_boundary, length_of_first_scalar, pop_first_scalar,
};

verus! {

/// Encoding a concatenation encodes each part in turn.
pub proof fn lemma_encode_concat(a: Seq<char>, b: Seq<char>)
    ensures
        encode_utf8(a + b) == encode_utf8(a) + encode_utf8(b),
    decreases a.len(),
{
    if a.len() == 0 {
        assert(a + b =~= b);
        assert(encode_utf8(a) + encode_utf8(b) =~= encode_utf8(b));
    } else {
        assert((a + b).drop_first() =~= a.drop_first() + b);
        lemma_encode_concat(a.drop_first(), b);
        assert(encode_utf8(a + b) =~= encode_utf8(a) + encode_utf8(b));
    }
}

/// Every character takes at least one byte.
pub proof fn lemma_encode_len(a: Seq<char>)
    ensures
        a.len() <= encode_utf8(a).len(),
    decreases a.len(),
{
    if a.len() > 0 {
        lemma_encode_len(a.drop_first());
        assert(encode_scalar(a[0] as u32).len() >= 1);
    }
}

/// The bytes of a character sequence split into those of a prefix and those of
/// the rest, and the split falls on a character boundary.
pub proof fn lemma_boundary_concat(a: Seq<char>, b: Seq<char>)
    ensures
        encode_utf8(a + b) == encode_utf8(a) + encode_utf8(b),
        is_char_boundary(encode_utf8(a + b), encode_utf8(a).len() as int),
    decreases a.len(),
{
    broadcast use encode_utf8_valid_utf8;

    lemma_encode_concat(a, b);
    if a.len() > 0 {
        let bytes = encode_utf8(a + b);
        encode_utf8_first_scalar(a + b);
        assert((a + b).drop_first() =~= a.drop_first() + b);
        assert(pop_first_scalar(bytes) =~= encode_utf8(a.drop_first() + b));
        lemma_boundary_concat(a.drop_first(), b);
        assert(length_of_first_scalar(bytes) == encode_scalar(a[0] as u32).len());
    }
}

/// What is left of a text after some characters takes no more bytes than the
/// whole.
pub proof fn lemma_encode_suffix(s: Seq<char>, i: int)
    requires
        0 <= i <= s.len(),
    ensures
        encode_utf8(s.subrange(i, s.len() as int)).len() <= encode_utf8(s).len(),
{
    assert(s =~= s.subrange(0, i) + s.subrange(i, s.len() as int));
    lemma_encode_concat(s.subrange(0, i), s.subrange(i, s.len() as int));
}


/// Splits `s` after its first `k` characters; the cost is that of walking
/// those characters.
pub fn split_chars<'a>(s: &'a str, k: usize) -> (r: (&'a str, &'a str))
    requires
        k <= s@.len(),
        encode_utf8(s@).len() < usize::MAX,
    ensures
        r.0@ == s@.subrange(0, k as int),
        r.1@ == s@.subrange(k as int, s@.len() as int),
{
    broadcast use encode_utf8_decode_utf8;

    let head = s.substring_char(0, k);
    let ghost a = s@.subrange(0, k as int);
    let ghost b = s@.subrange(k as int, s@.len() as int);
    proof {
        assert(s@ =~= a + b);
        lemma_boundary_concat(a, b);
    }
    let mid = head.len();
    let r = s.split_at(mid);
    proof {
        assert(encode_utf8(r.0@) =~= encode_utf8(a));
        assert(encode_utf8(r.1@) =~= encode_utf8(b));
        assert(r.0@ == decode_utf8(encode_utf8(r.0@)));
        assert(a == decode_utf8(encode_utf8(a)));
        assert(r.1@ == decode_utf8(encode_utf8(r.1@)));
        assert(b == decode_utf8(encode_utf8(b)));
    }
    r
}

} // verus!
