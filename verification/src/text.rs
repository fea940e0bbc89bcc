use vstd::prelude::*;
use vstd::string::*;
use vstd::utf8::*;

verus! {

broadcast use vstd::seq::group_seq_axioms;

/// The UTF-8 bytes of an owned string.
pub open spec fn sbytes(s: String) -> Seq<u8> {
    encode_utf8(s@)
}

/// Encoding a concatenation of characters concatenates the encodings.
pub proof fn lemma_encode_concat(x: Seq<char>, y: Seq<char>)
    ensures
        encode_utf8(x + y) == encode_utf8(x) + encode_utf8(y),
    decreases x.len(),
{
    if x.len() == 0 {
        assert(x + y =~= y);
        assert(encode_utf8(x) =~= Seq::<u8>::empty());
        assert(encode_utf8(x) + encode_utf8(y) =~= encode_utf8(y));
    } else {
        lemma_encode_concat(x.drop_first(), y);
        assert((x + y).drop_first() =~= x.drop_first() + y);
        assert((x + y)[0] == x[0]);
        assert(encode_utf8(x + y) == encode_scalar(x[0] as u32) + encode_utf8((x + y).drop_first()));
        assert(encode_utf8(x) == encode_scalar(x[0] as u32) + encode_utf8(x.drop_first()));
        assert(encode_scalar(x[0] as u32) + (encode_utf8(x.drop_first()) + encode_utf8(y))
            =~= (encode_scalar(x[0] as u32) + encode_utf8(x.drop_first())) + encode_utf8(y));
    }
}

/// A non-empty valid UTF-8 sequence never starts with a continuation byte.
pub proof fn lemma_valid_first_not_continuation(t: Seq<u8>)
    requires
        valid_utf8(t),
        t.len() > 0,
    ensures
        !is_continuation_byte(t[0]),
{
    assert(valid_first_scalar(t));
}

/// In valid UTF-8, a position at either end, at an ASCII byte, or right after an
/// ASCII byte is a character boundary.
pub proof fn lemma_cut(bytes: Seq<u8>, p: int)
    requires
        valid_utf8(bytes),
        0 <= p <= bytes.len(),
        p == 0 || p == bytes.len() || bytes[p] < 128 || bytes[p - 1] < 128,
    ensures
        is_char_boundary(bytes, p),
{
    is_char_boundary_start_end_of_seq(bytes);
    if p == 0 || p == bytes.len() {
    } else if bytes[p] < 128 {
        is_char_boundary_iff_not_is_continuation_byte(bytes, p);
    } else {
        let j = p - 1;
        is_char_boundary_iff_not_is_continuation_byte(bytes, j);
        valid_utf8_split(bytes, j);
        let s = bytes.subrange(j, bytes.len() as int);
        assert(valid_first_scalar(s));
        assert(length_of_first_scalar(s) == 1);
        let t = pop_first_scalar(s);
        assert(valid_utf8(t));
        assert(t.len() > 0);
        assert(t[0] == bytes[p]);
        lemma_valid_first_not_continuation(t);
        is_char_boundary_iff_not_is_continuation_byte(bytes, p);
    }
}

/// Splitting a valid sequence at a boundary leaves the later boundaries intact.
proof fn lemma_boundary_in_suffix(bytes: Seq<u8>, a: int, b: int)
    requires
        valid_utf8(bytes),
        0 <= a <= b <= bytes.len(),
        is_char_boundary(bytes, a),
        is_char_boundary(bytes, b),
    ensures
        valid_utf8(bytes.subrange(a, bytes.len() as int)),
        is_char_boundary(bytes.subrange(a, bytes.len() as int), b - a),
{
    valid_utf8_split(bytes, a);
    let s = bytes.subrange(a, bytes.len() as int);
    is_char_boundary_start_end_of_seq(s);
    if b < bytes.len() && b > a {
        is_char_boundary_iff_not_is_continuation_byte(bytes, b);
        is_char_boundary_iff_not_is_continuation_byte(s, b - a);
    }
}

/// The part of `s` between two character boundaries given as byte offsets.
pub fn substr(s: &str, a: usize, b: usize) -> (r: &str)
    requires
        a <= b <= s.spec_bytes().len(),
        is_char_boundary(s.spec_bytes(), a as int),
        is_char_boundary(s.spec_bytes(), b as int),
    ensures
        r.spec_bytes() == s.spec_bytes().subrange(a as int, b as int),
{
    proof {
        encode_utf8_valid_utf8(s@);
        lemma_boundary_in_suffix(s.spec_bytes(), a as int, b as int);
    }
    let (_, rest) = s.split_at(a);
    let (mid, _) = rest.split_at(b - a);
    assert(mid.spec_bytes() =~= s.spec_bytes().subrange(a as int, b as int));
    mid
}

/// Appends a string slice to an owned string, stated over UTF-8 bytes.
pub fn push_str(s: &mut String, t: &str)
    ensures
        sbytes(*final(s)) == sbytes(*old(s)) + t.spec_bytes(),
{
    s.append(t);
    proof {
        lemma_encode_concat(old(s)@, t@);
    }
}

/// An owned copy of a string slice, stated over UTF-8 bytes.
pub fn owned(t: &str) -> (r: String)
    ensures
        sbytes(r) == t.spec_bytes(),
        r@ == t@,
{
    String::from_str(t)
}

/// Compares two string slices character by character.
pub fn str_eq(a: &str, b: &str) -> (r: bool)
    ensures
        r == (a@ == b@),
{
    let n = a.unicode_len();
    let m = b.unicode_len();
    if n != m {
        return false;
    }
    let mut i: usize = 0;
    while i < n
        invariant
            n == a@.len(),
            m == b@.len(),
            n == m,
            i <= n,
            forall|j: int| 0 <= j < i ==> a@[j] == b@[j],
        decreases n - i,
    {
        if a.get_char(i) != b.get_char(i) {
            return false;
        }
        i = i + 1;
    }
    assert(a@ =~= b@);
    true
}

/// The encoding of ASCII characters is their codes.
pub proof fn lemma_ascii_encoding(cs: Seq<char>)
    requires
        forall|i: int| 0 <= i < cs.len() ==> (cs[i] as u32) < 128,
    ensures
        encode_utf8(cs).len() == cs.len(),
        forall|i: int| 0 <= i < cs.len() ==> encode_utf8(cs)[i] == cs[i] as u32,
    decreases cs.len(),
{
    if cs.len() > 0 {
        let c = cs[0] as u32;
        assert((c & 0x7F) == c && ((c & 0x7F) as u8) == c) by (bit_vector)
            requires
                c < 128,
        ;
        lemma_ascii_encoding(cs.drop_first());
        assert forall|i: int| 0 <= i < cs.len() implies encode_utf8(cs)[i] == cs[i] as u32 by {
            if i > 0 {
                assert(cs.drop_first()[i - 1] == cs[i]);
            }
        }
    }
}

} // verus!
