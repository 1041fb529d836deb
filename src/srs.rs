use std::io::Write;

use vstd::prelude::*;
use vstd::utf8::encode_utf8;

use crate::model::{lemma_strictly_sorted_unique, strictly_sorted, Rule, RuleType, RuleView};
use crate::succinct_set::{matcher_keys, set_bytes, trie_arrays, SuccinctSet};
use crate::varint::{push_varint, varint_bytes};

verus! {

#[verifier::external_type_specification]
#[verifier::external_body]
pub struct ExIoError(std::io::Error);

/// The first bytes of every rule-set file.
pub const MAGIC_BYTES: [u8; 3] = [0x53, 0x52, 0x53];

/// The format version written after the magic bytes.
pub const VERSION: u8 = 3;

/// The zlib stream, at the best compression level, of `data`.
pub uninterp spec fn zlib_best_of(data: Seq<u8>) -> Seq<u8>;

/// Relies on flate2's `ZlibEncoder` at `Compression::best()`: after
/// `write_all` and `finish`, the writer holds the zlib stream of the input,
/// which depends on the input alone. It succeeds: the sink is a `Vec<u8>`,
/// whose writes never fail, and the default miniz_oxide backend reports an
/// error only for a bad parameter or a failing callback sink, neither of
/// which occurs at level 9 without a callback.
#[verifier::external_body]
fn zlib_compress(data: &Vec<u8>) -> (r: Result<Vec<u8>, std::io::Error>)
    ensures
        r is Ok,
        r matches Ok(z) ==> z@ == zlib_best_of(data@),
{
    let mut encoder = flate2::write::ZlibEncoder::new(Vec::new(), flate2::Compression::best());
    encoder.write_all(data.as_slice())?;
    encoder.finish()
}

/// The strings of a list block: each as its byte length and its UTF-8 bytes.
pub open spec fn strings_bytes(v: Seq<Seq<char>>) -> Seq<u8> {
    v.map_values(|s: Seq<char>| varint_bytes(encode_utf8(s).len()) + encode_utf8(s)).flatten()
}

/// A keyword or regular-expression block; nothing where the list is empty.
pub open spec fn list_block(tag: u8, v: Seq<Seq<char>>) -> Seq<u8> {
    if v.len() == 0 {
        seq![]
    } else {
        seq![tag] + varint_bytes(v.len()) + strings_bytes(v)
    }
}

/// The domain block; nothing where there are neither domains nor suffixes.
pub open spec fn domain_block(r: RuleView) -> Seq<u8> {
    if r.domain.len() == 0 && r.domain_suffix.len() == 0 {
        seq![]
    } else {
        seq![2u8] + set_bytes(trie_arrays(matcher_keys(r.domain, r.domain_suffix)))
    }
}

/// What goes into the compressor: one rule set, with its reserved byte, its
/// blocks and the closing block.
pub open spec fn payload(r: RuleView) -> Seq<u8> {
    varint_bytes(1) + seq![0u8] + domain_block(r) + list_block(3, r.domain_keyword) + list_block(
        4,
        r.domain_regex,
    ) + seq![0xFFu8, 0u8]
}

pub open spec fn header() -> Seq<u8> {
    seq![0x53u8, 0x52u8, 0x53u8, 3u8]
}

/// Errors of writing a rule set.
pub enum SrsError {
    Compression(std::io::Error),
}

/// Appends a list block.
fn push_list_block(out: &mut Vec<u8>, tag: u8, v: &Vec<String>)
    ensures
        final(out)@ == old(out)@ + list_block(tag, v@.map_values(|s: String| s@)),
{
    let ghost sv = v@.map_values(|s: String| s@);
    let ghost f = |s: Seq<char>| varint_bytes(encode_utf8(s).len()) + encode_utf8(s);
    if v.len() == 0 {
        assert(out@ =~= old(out)@ + list_block(tag, sv));
        return;
    }
    let ghost start = out@;
    out.push(tag);
    push_varint(out, v.len());
    let ghost mid = out@;
    let mut i: usize = 0;
    while i < v.len()
        invariant
            sv == v@.map_values(|s: String| s@),
            f == (|s: Seq<char>| varint_bytes(encode_utf8(s).len()) + encode_utf8(s)),
            i <= v@.len(),
            out@ == mid + sv.take(i as int).map_values(f).flatten(),
        decreases v@.len() - i,
    {
        let bytes: &[u8] = v[i].as_str().as_bytes();
        let ghost before = out@;
        push_varint(out, bytes.len());
        let mut k: usize = 0;
        let ghost mid2 = out@;
        while k < bytes.len()
            invariant
                k <= bytes@.len(),
                out@ == mid2 + bytes@.take(k as int),
            decreases bytes@.len() - k,
        {
            out.push(bytes[k]);
            assert(out@ =~= mid2 + bytes@.take(k + 1));
            k += 1;
        }
        proof {
            assert(bytes@.take(bytes@.len() as int) =~= bytes@);
            assert(sv[i as int] == v@[i as int]@);
            assert(bytes@ == encode_utf8(sv[i as int]));
            assert(sv.take(i + 1).map_values(f) =~= sv.take(i as int).map_values(f).push(f(sv[i as int])));
            sv.take(i as int).map_values(f).lemma_flatten_push(f(sv[i as int]));
            assert(out@ =~= mid + sv.take(i + 1).map_values(f).flatten());
        }
        i += 1;
    }
    assert(sv.take(sv.len() as int) =~= sv);
    assert(out@ =~= start + list_block(tag, sv));
}

/// The uncompressed body of the rule-set file of `value`.
pub fn srs_payload(value: &Rule) -> (r: Vec<u8>)
    requires
        value.wf(),
    ensures
        r@ == payload(value@),
{
    let mut out: Vec<u8> = Vec::new();
    push_varint(&mut out, 1);
    out.push(0u8);
    let ghost after_head = out@;
    if value.domain.len() > 0 || value.domain_suffix.len() > 0 {
        out.push(RuleType::Domain.tag());
        let ss = SuccinctSet::matcher(&value.domain, &value.domain_suffix);
        ss.write(&mut out);
    }
    assert(out@ =~= after_head + domain_block(value@));
    push_list_block(&mut out, RuleType::DomainKeyword.tag(), &value.domain_keyword);
    push_list_block(&mut out, RuleType::DomainRegex.tag(), &value.domain_regex);
    out.push(RuleType::DomainFinal.tag());
    out.push(0u8);
    assert(out@ =~= payload(value@));
    out
}

/// The rule-set file around an already compressed body: magic bytes,
/// version, then the body.
pub fn frame_srs(compressed: &Vec<u8>) -> (r: Vec<u8>)
    ensures
        r@ == header() + compressed@,
{
    let mut out: Vec<u8> = Vec::new();
    out.push(MAGIC_BYTES[0]);
    out.push(MAGIC_BYTES[1]);
    out.push(MAGIC_BYTES[2]);
    out.push(VERSION);
    let mut i: usize = 0;
    while i < compressed.len()
        invariant
            i <= compressed@.len(),
            out@ == header() + compressed@.take(i as int),
        decreases compressed@.len() - i,
    {
        out.push(compressed[i]);
        assert(out@ =~= header() + compressed@.take(i + 1));
        i += 1;
    }
    assert(compressed@.take(compressed@.len() as int) =~= compressed@);
    out
}

/// Appends the rule-set file of `value` to `writer`.
pub fn write_srs(writer: &mut Vec<u8>, value: &Rule) -> (r: Result<(), SrsError>)
    requires
        value.wf(),
    ensures
        r is Ok,
        final(writer)@ == old(writer)@ + header() + zlib_best_of(payload(value@)),
{
    let body = srs_payload(value);
    match zlib_compress(&body) {
        Ok(z) => {
            let file = frame_srs(&z);
            let ghost start = writer@;
            let mut i: usize = 0;
            while i < file.len()
                invariant
                    i <= file@.len(),
                    writer@ == start + file@.take(i as int),
                decreases file@.len() - i,
            {
                writer.push(file[i]);
                assert(writer@ =~= start + file@.take(i + 1));
                i += 1;
            }
            assert(file@.take(file@.len() as int) =~= file@);
            assert(writer@ =~= start + header() + zlib_best_of(payload(value@)));
            Ok(())
        },
        Err(e) => Err(SrsError::Compression(e)),
    }
}

} // verus!

verus! {

/// Without keywords and regular expressions the payload holds no keyword or
/// regex block: only the section head, the domain block, if any, and the
/// closing block.
pub proof fn lemma_empty_lists_omitted(r: RuleView)
    requires
        r.domain_keyword.len() == 0,
        r.domain_regex.len() == 0,
    ensures
        payload(r) == varint_bytes(1) + seq![0u8] + domain_block(r) + seq![0xFFu8, 0u8],
{
    assert(payload(r) =~= varint_bytes(1) + seq![0u8] + domain_block(r) + seq![0xFFu8, 0u8]);
}

} // verus!

verus! {

/// Rule collections that hold the same strings in each of their four sets
/// give byte-identical rule-set files.
pub proof fn lemma_same_sets_same_file(r1: RuleView, r2: RuleView)
    requires
        strictly_sorted(r1.domain),
        strictly_sorted(r1.domain_suffix),
        strictly_sorted(r1.domain_keyword),
        strictly_sorted(r1.domain_regex),
        strictly_sorted(r2.domain),
        strictly_sorted(r2.domain_suffix),
        strictly_sorted(r2.domain_keyword),
        strictly_sorted(r2.domain_regex),
        forall|x: Seq<char>| r1.domain.contains(x) <==> r2.domain.contains(x),
        forall|x: Seq<char>| r1.domain_suffix.contains(x) <==> r2.domain_suffix.contains(x),
        forall|x: Seq<char>| r1.domain_keyword.contains(x) <==> r2.domain_keyword.contains(x),
        forall|x: Seq<char>| r1.domain_regex.contains(x) <==> r2.domain_regex.contains(x),
    ensures
        payload(r1) == payload(r2),
        header() + zlib_best_of(payload(r1)) == header() + zlib_best_of(payload(r2)),
{
    lemma_strictly_sorted_unique(r1.domain, r2.domain);
    lemma_strictly_sorted_unique(r1.domain_suffix, r2.domain_suffix);
    lemma_strictly_sorted_unique(r1.domain_keyword, r2.domain_keyword);
    lemma_strictly_sorted_unique(r1.domain_regex, r2.domain_regex);
}

} // verus!
