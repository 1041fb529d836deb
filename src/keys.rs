use vstd::prelude::*;
use vstd::string::StrSliceExecFns;
use vstd::utf8::{char_is_scalar, encode_scalar, encode_utf8};

verus! {

/// The characters of `s` in reverse order.
pub open spec fn reversed(s: Seq<char>) -> Seq<char> {
    Seq::new(s.len(), |i: int| s[s.len() - 1 - i])
}

/// Marks a suffix that matches subdomains only (one written with a leading dot).
pub const SUBDOMAIN_MARK: char = '\r';

/// Marks a suffix that matches the domain itself and its subdomains.
pub const DOMAIN_MARK: char = '\n';

pub open spec fn suffix_mark(s: Seq<char>) -> char {
    if s.len() > 0 && s[0] == '.' {
        SUBDOMAIN_MARK
    } else {
        DOMAIN_MARK
    }
}

/// Trie key of an exact domain: its reversal, as UTF-8.
pub open spec fn exact_key(s: Seq<char>) -> Seq<u8> {
    encode_utf8(reversed(s))
}

/// Trie key of a domain suffix: the suffix behind its mark, reversed, as UTF-8.
pub open spec fn suffix_key(s: Seq<char>) -> Seq<u8> {
    encode_utf8(reversed(seq![suffix_mark(s)] + s))
}

pub proof fn lemma_encode_utf8_push(s: Seq<char>, c: char)
    ensures
        encode_utf8(s.push(c)) == encode_utf8(s) + encode_scalar(c as u32),
    decreases s.len(),
{
    if s.len() == 0 {
        assert(s.push(c).drop_first() =~= Seq::<char>::empty());
        assert(encode_utf8(Seq::<char>::empty()) == Seq::<u8>::empty());
        assert(encode_utf8(s.push(c)) =~= encode_scalar(c as u32));
    } else {
        lemma_encode_utf8_push(s.drop_first(), c);
        assert(s.push(c).drop_first() =~= s.drop_first().push(c));
        assert(encode_utf8(s.push(c)) =~= encode_utf8(s) + encode_scalar(c as u32));
    }
}

/// Appends the UTF-8 encoding of `c`.
fn push_utf8(out: &mut Vec<u8>, c: char)
    ensures
        final(out)@ == old(out)@ + encode_scalar(c as u32),
{
    let v: u32 = c as u32;
    proof {
        char_is_scalar(c);
    }
    let ghost start = out@;
    if v <= 0x7F {
        out.push((v & 0x7F) as u8);
    } else if v <= 0x7FF {
        out.push(0xC0 | ((v >> 6) & 0x1F) as u8);
        out.push(0x80 | (v & 0x3F) as u8);
    } else if v <= 0xFFFF {
        out.push(0xE0 | ((v >> 12) & 0x0F) as u8);
        out.push(0x80 | ((v >> 6) & 0x3F) as u8);
        out.push(0x80 | (v & 0x3F) as u8);
    } else {
        out.push(0xF0 | ((v >> 18) & 0x7) as u8);
        out.push(0x80 | ((v >> 12) & 0x3F) as u8);
        out.push(0x80 | ((v >> 6) & 0x3F) as u8);
        out.push(0x80 | (v & 0x3F) as u8);
    }
    assert(out@ =~= start + encode_scalar(c as u32));
}

/// Appends the characters of `s` in reverse order, as UTF-8.
fn push_reversed(out: &mut Vec<u8>, s: &str)
    ensures
        final(out)@ == old(out)@ + encode_utf8(reversed(s@)),
{
    let n = s.unicode_len();
    let ghost start = out@;
    let mut i: usize = n;
    assert(reversed(s@).take(0) =~= Seq::<char>::empty());
    assert(encode_utf8(Seq::<char>::empty()) == Seq::<u8>::empty());
    assert(out@ =~= start + encode_utf8(reversed(s@).take(0)));
    while i > 0
        invariant
            n == s@.len(),
            i <= n,
            out@ == start + encode_utf8(reversed(s@).take(n - i)),
        decreases i,
    {
        let c = s.get_char(i - 1);
        proof {
            lemma_encode_utf8_push(reversed(s@).take(n - i), c);
            assert(reversed(s@).take(n - i).push(c) =~= reversed(s@).take(n - i + 1));
        }
        push_utf8(out, c);
        i -= 1;
    }
    assert(reversed(s@).take(n as int) =~= reversed(s@));
}

/// The trie key of an exact domain.
pub fn exact_domain_key(s: &str) -> (r: Vec<u8>)
    ensures
        r@ == exact_key(s@),
{
    let mut r: Vec<u8> = Vec::new();
    push_reversed(&mut r, s);
    r
}

/// The trie key of a domain suffix.
pub fn domain_suffix_key(s: &str) -> (r: Vec<u8>)
    ensures
        r@ == suffix_key(s@),
{
    let mut r: Vec<u8> = Vec::new();
    push_reversed(&mut r, s);
    let mark = if s.unicode_len() > 0 && s.get_char(0) == '.' {
        SUBDOMAIN_MARK
    } else {
        DOMAIN_MARK
    };
    proof {
        lemma_encode_utf8_push(reversed(s@), mark);
        assert(reversed(seq![mark] + s@) =~= reversed(s@).push(mark));
    }
    push_utf8(&mut r, mark);
    r
}

} // verus!

verus! {

/// A suffix key is the key of the suffix as an exact domain, followed by its
/// mark: byte 13 for a suffix with a leading dot, byte 10 otherwise.
pub proof fn lemma_suffix_key_shape(s: Seq<char>)
    ensures
        suffix_key(s) == exact_key(s) + seq![if s.len() > 0 && s[0] == '.' { 13u8 } else { 10u8 }],
{
    let mark = suffix_mark(s);
    lemma_encode_utf8_push(reversed(s), mark);
    assert(reversed(seq![mark] + s) =~= reversed(s).push(mark));
    assert((13u32 & 0x7F) as u8 == 13u8) by (bit_vector);
    assert((10u32 & 0x7F) as u8 == 10u8) by (bit_vector);
    assert(encode_scalar(mark as u32) =~= seq![if s.len() > 0 && s[0] == '.' { 13u8 } else { 10u8 }]);
}

} // verus!
