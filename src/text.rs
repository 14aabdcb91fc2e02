//! Facts about the UTF-8 encoding of character sequences, and a scan over a
//! string slice that counts bytes.
use vstd::prelude::*;
use vstd::std_specs::iter::IteratorSpec;
use vstd::utf8::*;
use crate::error::TokenizeError;

verus! {

broadcast use vstd::utf8::group_utf8_lib;

/// Number of bytes that the UTF-8 encoding of `cs` takes.
pub open spec fn byte_len(cs: Seq<char>) -> nat {
    encode_utf8(cs).len()
}

/// Number of bytes that the UTF-8 encoding of `c` takes.
pub open spec fn char_width(c: char) -> nat {
    encode_scalar(c as u32).len()
}

pub proof fn lemma_encode_concat(a: Seq<char>, b: Seq<char>)
    ensures
        encode_utf8(a + b) == encode_utf8(a) + encode_utf8(b),
    decreases a.len(),
{
    if a.len() == 0 {
        assert(a + b =~= b);
        assert(encode_utf8(a) + encode_utf8(b) =~= encode_utf8(b));
    } else {
        assert((a + b).drop_first() =~= a.drop_first() + b);
        lemma_encode_concat(a.drop_first(), b);
        assert(encode_utf8(a + b) =~= encode_utf8(a) + encode_utf8(b));
    }
}

pub proof fn lemma_byte_len_push(a: Seq<char>, c: char)
    ensures
        byte_len(a.push(c)) == byte_len(a) + char_width(c),
        char_width(c) >= 1,
{
    lemma_encode_concat(a, seq![c]);
    assert(a.push(c) =~= a + seq![c]);
    assert(seq![c].drop_first() =~= Seq::<char>::empty());
    assert(encode_utf8(Seq::<char>::empty()) =~= Seq::<u8>::empty());
    assert(encode_utf8(seq![c]) =~= encode_scalar(c as u32));
}

pub proof fn lemma_byte_len_concat(a: Seq<char>, b: Seq<char>)
    ensures
        byte_len(a + b) == byte_len(a) + byte_len(b),
{
    lemma_encode_concat(a, b);
}

pub proof fn lemma_byte_len_nonempty(a: Seq<char>)
    requires
        a.len() > 0,
    ensures
        byte_len(a) > 0,
{
    lemma_byte_len_push(a.drop_last(), a.last());
    assert(a.drop_last().push(a.last()) =~= a);
}

pub proof fn lemma_byte_len_take(s: Seq<char>, k: int)
    requires
        0 <= k <= s.len(),
    ensures
        byte_len(s) == byte_len(s.take(k)) + byte_len(s.skip(k)),
{
    lemma_encode_concat(s.take(k), s.skip(k));
    assert(s.take(k) + s.skip(k) =~= s);
}

proof fn lemma_prefix_boundary(a: Seq<char>, b: Seq<char>)
    ensures
        is_char_boundary(encode_utf8(a + b), encode_utf8(a).len() as int),
    decreases a.len(),
{
    if a.len() > 0 {
        let bytes = encode_utf8(a + b);
        lemma_encode_concat(a, b);
        encode_utf8_first_scalar(a + b);
        assert((a + b).drop_first() =~= a.drop_first() + b);
        assert(pop_first_scalar(bytes) =~= encode_utf8(a.drop_first() + b));
        lemma_prefix_boundary(a.drop_first(), b);
    }
}

/// The byte offset after the first `k` characters of `s` is a character boundary.
pub proof fn lemma_take_boundary(s: Seq<char>, k: int)
    requires
        0 <= k <= s.len(),
    ensures
        is_char_boundary(encode_utf8(s), byte_len(s.take(k)) as int),
{
    lemma_prefix_boundary(s.take(k), s.skip(k));
    assert(s.take(k) + s.skip(k) =~= s);
}

/// Splits `s` after its first `k` characters, where `mid` is their byte length.
pub fn split_after_chars<'a>(s: &'a str, Ghost(k): Ghost<int>, mid: usize) -> (r: (&'a str, &'a str))
    requires
        0 <= k <= s@.len(),
        mid == byte_len(s@.take(k)),
    ensures
        r.0@ == s@.take(k),
        r.1@ == s@.skip(k),
{
    proof {
        lemma_take_boundary(s@, k);
        lemma_encode_concat(s@.take(k), s@.skip(k));
        assert(s@.take(k) + s@.skip(k) =~= s@);
    }
    let r = s.split_at(mid);
    proof {
        let bytes = encode_utf8(s@);
        assert(bytes.subrange(0, mid as int) =~= encode_utf8(s@.take(k)));
        assert(bytes.subrange(mid as int, bytes.len() as int) =~= encode_utf8(s@.skip(k)));
        assert(decode_utf8(encode_utf8(r.0@)) == r.0@);
        assert(decode_utf8(encode_utf8(r.1@)) == r.1@);
    }
    r
}

/// Number of bytes in the UTF-8 encoding of `c`.
pub fn len_utf8(c: char) -> (r: usize)
    ensures
        r == char_width(c),
        1 <= r <= 4,
{
    let v = c as u32;
    if v < 0x80 {
        1
    } else if v < 0x800 {
        2
    } else if v < 0x10000 {
        3
    } else {
        4
    }
}

/// Scans the longest prefix of `data` whose characters satisfy `predicate`.
/// On success returns that prefix and its length in bytes; fails with
/// `NoMatches` when not even the first character satisfies it.
pub fn take_while<F: Fn(char) -> bool>(data: &str, predicate: F) -> (r: Result<(&str, usize), TokenizeError>)
    requires
        forall|c: char| predicate.requires((c,)),
    ensures
        match r {
            Ok((p, n)) => {
                &&& 0 < p@.len() <= data@.len()
                &&& p@ == data@.take(p@.len() as int)
                &&& n == byte_len(p@)
                &&& forall|i: int| 0 <= i < p@.len() ==> predicate.ensures((data@[i],), true)
                &&& p@.len() < data@.len() ==> predicate.ensures((data@[p@.len() as int],), false)
            },
            Err(e) => {
                &&& e is NoMatches
                &&& data@.len() > 0 ==> predicate.ensures((data@[0],), false)
            },
        },
{
    broadcast use vstd::string::group_string_axioms;
    let total = data.as_bytes().len();
    let mut chars = data.chars();
    let mut index: usize = 0;
    let ghost mut k: int = 0;
    proof {
        lemma_byte_len_take(data@, 0);
        assert(data@.take(0) =~= Seq::<char>::empty());
    }
    loop
        invariant_except_break
            chars.remaining() == data@.skip(k),
        invariant
            0 <= k <= data@.len(),
            index == byte_len(data@.take(k)),
            total == byte_len(data@),
            forall|c: char| predicate.requires((c,)),
            forall|i: int| 0 <= i < k ==> predicate.ensures((data@[i],), true),
        ensures
            0 <= k <= data@.len(),
            index == byte_len(data@.take(k)),
            forall|i: int| 0 <= i < k ==> predicate.ensures((data@[i],), true),
            k < data@.len() ==> predicate.ensures((data@[k],), false),
        decreases data@.len() - k,
    {
        match chars.next() {
            None => {
                break;
            },
            Some(c) => {
                assert(c == data@[k]);
                if !predicate(c) {
                    break;
                }
                proof {
                    lemma_byte_len_push(data@.take(k), c);
                    assert(data@.take(k).push(c) =~= data@.take(k + 1));
                    lemma_byte_len_take(data@, k + 1);
                    assert(data@.skip(k).drop_first() =~= data@.skip(k + 1));
                }
                index = index + len_utf8(c);
                proof {
                    k = k + 1;
                }
            },
        }
    }
    if index == 0 {
        proof {
            if k > 0 {
                lemma_byte_len_push(data@.take(k - 1), data@[k - 1]);
                assert(data@.take(k - 1).push(data@[k - 1]) =~= data@.take(k));
            }
        }
        Err(TokenizeError::NoMatches)
    } else {
        let (p, _) = split_after_chars(data, Ghost(k), index);
        Ok((p, index))
    }
}

} // verus!
