use vstd::prelude::*;
use vstd::bytes::*;
use vstd::utf8::*;

use crate::container::header::{
    entries_bytes, entry_at, entry_name, first_nul_from, name_field, until_nul, entry_bytes, entry_from_bytes, entry_wf, header_bytes, header_len,
    parse_header, HeaderEntryView, HeaderView, join_entry_texts, entry_debug_text,
};

verus! {

/// A header view that a `Header` whose count matches its entries can have.
pub open spec fn header_wf(h: HeaderView) -> bool {
    &&& h.entries.len() == h.num_entries
    &&& forall|i: int| 0 <= i < h.entries.len() ==> entry_wf(#[trigger] h.entries[i])
}

/// An encoded entry takes `HEADER_ENTRY_IN_BYTES` bytes.
pub proof fn lemma_entry_bytes_len(e: HeaderEntryView)
    requires
        entry_wf(e),
    ensures
        entry_bytes(e).len() == 144,
{
    lemma_auto_spec_u64_to_from_le_bytes();
}

/// Reading back the encoding of an entry gives the same entry.
pub proof fn lemma_entry_roundtrip(e: HeaderEntryView)
    requires
        entry_wf(e),
    ensures
        entry_from_bytes(entry_bytes(e)) == e,
{
    lemma_auto_spec_u64_to_from_le_bytes();
    let b = entry_bytes(e);
    assert(b.subrange(0, 128) =~= e.file_path);
    assert(b.subrange(128, 136) =~= spec_u64_to_le_bytes(e.file_size));
    assert(b.subrange(136, 144) =~= spec_u64_to_le_bytes(e.offset));
}

/// Encoding the entry read from `HEADER_ENTRY_IN_BYTES` bytes gives those
/// bytes back.
pub proof fn lemma_entry_bytes_roundtrip(b: Seq<u8>)
    requires
        b.len() == 144,
    ensures
        entry_bytes(entry_from_bytes(b)) == b,
{
    lemma_auto_spec_u64_to_from_le_bytes();
    let s1 = b.subrange(128, 136);
    let s2 = b.subrange(136, 144);
    assert(spec_u64_to_le_bytes(spec_u64_from_le_bytes(s1)) == s1);
    assert(spec_u64_to_le_bytes(spec_u64_from_le_bytes(s2)) == s2);
    assert(b =~= b.subrange(0, 128) + s1 + s2);
}

/// Encoded entries take `HEADER_ENTRY_IN_BYTES` bytes each.
pub proof fn lemma_entries_bytes_len(es: Seq<HeaderEntryView>)
    requires
        forall|i: int| 0 <= i < es.len() ==> entry_wf(#[trigger] es[i]),
    ensures
        entries_bytes(es).len() == 144 * es.len(),
    decreases es.len(),
{
    if es.len() > 0 {
        lemma_entries_bytes_len(es.drop_last());
        lemma_entry_bytes_len(es.last());
    }
}

/// The `i`-th block of `HEADER_ENTRY_IN_BYTES` bytes of encoded entries is the
/// encoding of the `i`-th entry.
pub proof fn lemma_entries_bytes_index(es: Seq<HeaderEntryView>, i: int)
    requires
        forall|k: int| 0 <= k < es.len() ==> entry_wf(#[trigger] es[k]),
        0 <= i < es.len(),
    ensures
        entries_bytes(es).subrange(144 * i, 144 * i + 144) == entry_bytes(es[i]),
    decreases es.len(),
{
    let front = es.drop_last();
    lemma_entries_bytes_len(front);
    lemma_entry_bytes_len(es.last());
    if i == es.len() - 1 {
        assert(entries_bytes(es).subrange(144 * i, 144 * i + 144) =~= entry_bytes(es.last()));
    } else {
        lemma_entries_bytes_index(front, i);
        assert(entries_bytes(es).subrange(144 * i, 144 * i + 144) =~= entries_bytes(
            front,
        ).subrange(144 * i, 144 * i + 144));
    }
}

/// Law: reading back the encoding of a header whose entry count matches its
/// entries gives the same header.
pub proof fn lemma_header_roundtrip(h: HeaderView)
    requires
        header_wf(h),
    ensures
        parse_header(header_bytes(h)) == Some(h),
{
    lemma_auto_spec_u64_to_from_le_bytes();
    let b = header_bytes(h);
    let eb = entries_bytes(h.entries);
    lemma_entries_bytes_len(h.entries);
    assert(b.subrange(0, 8) =~= spec_u64_to_le_bytes(h.num_entries));
    assert(b.subrange(8, 16) =~= spec_u64_to_le_bytes(h.header_size));
    assert(b.subrange(16, 24) =~= spec_u64_to_le_bytes(h.total_size));
    assert forall|i: int| 0 <= i < h.num_entries implies #[trigger] entry_at(b, i) == h.entries[i] by {
        lemma_entries_bytes_index(h.entries, i);
        assert(b.subrange(24 + 144 * i, 24 + 144 * i + 144) =~= eb.subrange(144 * i, 144 * i + 144));
        lemma_entry_roundtrip(h.entries[i]);
    }
    let p = parse_header(b).unwrap();
    assert(p.entries =~= h.entries);
}

/// Law: a header is read from its own bytes alone; bytes after it change
/// nothing.
pub proof fn lemma_parse_header_prefix(b: Seq<u8>, extra: Seq<u8>)
    requires
        parse_header(b).is_some(),
    ensures
        parse_header(b + extra) == parse_header(b),
{
    let c = b + extra;
    assert(c.subrange(0, 8) =~= b.subrange(0, 8));
    assert(c.subrange(8, 16) =~= b.subrange(8, 16));
    assert(c.subrange(16, 24) =~= b.subrange(16, 24));
    let n = spec_u64_from_le_bytes(b.subrange(0, 8));
    assert forall|i: int| 0 <= i < n implies #[trigger] entry_at(c, i) == entry_at(b, i) by {
        assert(c.subrange(24 + 144 * i, 24 + 144 * i + 144) =~= b.subrange(24 + 144 * i, 24 + 144 * i + 144));
    }
    assert(parse_header(c).unwrap().entries =~= parse_header(b).unwrap().entries);
}

/// The encoding of the first `k` entries read from `b` is the stretch of `b`
/// they were read from.
proof fn lemma_parsed_entries_bytes(b: Seq<u8>, k: nat)
    requires
        b.len() >= header_len(k),
    ensures
        entries_bytes(Seq::new(k, |i: int| entry_at(b, i))) == b.subrange(24, header_len(k)),
    decreases k,
{
    if k == 0 {
        assert(b.subrange(24, 24) =~= Seq::<u8>::empty());
    } else {
        let k1 = (k - 1) as nat;
        let s = Seq::new(k, |i: int| entry_at(b, i));
        lemma_parsed_entries_bytes(b, k1);
        assert(s.drop_last() =~= Seq::new(k1, |i: int| entry_at(b, i)));
        let blk = b.subrange(24 + 144 * (k1 as int), 24 + 144 * (k1 as int) + 144);
        lemma_entry_bytes_roundtrip(blk);
        assert(b.subrange(24, header_len(k)) =~= b.subrange(24, header_len(k1)) + blk);
    }
}

/// Law: encoding a header read from `b` gives back exactly the bytes of `b`
/// that it was read from.
pub proof fn lemma_parse_then_encode(b: Seq<u8>)
    requires
        parse_header(b).is_some(),
    ensures
        header_bytes(parse_header(b).unwrap()) == b.subrange(
            0,
            header_len(parse_header(b).unwrap().num_entries as nat),
        ),
{
    lemma_auto_spec_u64_to_from_le_bytes();
    let h = parse_header(b).unwrap();
    let n = h.num_entries as nat;
    lemma_parsed_entries_bytes(b, n);
    let s0 = b.subrange(0, 8);
    let s1 = b.subrange(8, 16);
    let s2 = b.subrange(16, 24);
    assert(spec_u64_to_le_bytes(spec_u64_from_le_bytes(s0)) == s0);
    assert(spec_u64_to_le_bytes(spec_u64_from_le_bytes(s1)) == s1);
    assert(spec_u64_to_le_bytes(spec_u64_from_le_bytes(s2)) == s2);
    assert(b.subrange(0, header_len(n)) =~= s0 + s1 + s2 + b.subrange(24, header_len(n)));
}

/// UTF-8 encodes a concatenation piece by piece.
proof fn lemma_encode_utf8_concat(a: Seq<char>, b: Seq<char>)
    ensures
        encode_utf8(a + b) == encode_utf8(a) + encode_utf8(b),
    decreases a.len(),
{
    if a.len() == 0 {
        assert(a + b =~= b);
        assert(encode_utf8(a) + encode_utf8(b) =~= encode_utf8(b));
    } else {
        assert((a + b).drop_first() =~= a.drop_first() + b);
        assert((a + b)[0] == a[0]);
        lemma_encode_utf8_concat(a.drop_first(), b);
        assert(encode_utf8(a + b) =~= encode_utf8(a) + encode_utf8(b));
    }
}

/// NUL characters encode as zero bytes.
proof fn lemma_encode_nuls(k: nat)
    ensures
        encode_utf8(Seq::new(k, |i: int| '\0')) == Seq::new(k, |i: int| 0u8),
    decreases k,
{
    if k > 0 {
        let k1 = (k - 1) as nat;
        let cs = Seq::new(k, |i: int| '\0');
        assert(cs.drop_first() =~= Seq::new(k1, |i: int| '\0'));
        lemma_encode_nuls(k1);
        assert((0u32 & 0x7Fu32) as u8 == 0u8) by (bit_vector);
        assert(('\0' as u32) == 0u32);
        assert(encode_scalar(cs[0] as u32) =~= seq![0u8]);
        assert(encode_utf8(cs) =~= Seq::new(k, |i: int| 0u8));
    }
}

/// With no NUL between `i` and `l`, the first NUL from `i` is the first NUL
/// from `l`.
proof fn lemma_first_nul_skip(cs: Seq<char>, i: int, l: int)
    requires
        0 <= i <= l <= cs.len(),
        forall|j: int| i <= j < l ==> cs[j] != '\0',
    ensures
        first_nul_from(cs, i) == first_nul_from(cs, l),
    decreases l - i,
{
    if i < l {
        lemma_first_nul_skip(cs, i + 1, l);
    }
}

/// Law: an entry made from a name whose UTF-8 encoding fits the name field
/// and that holds no NUL character gives that name back.
pub proof fn lemma_new_name_roundtrip(name: Seq<char>, file_size: u64, offset: u64)
    requires
        encode_utf8(name).len() <= 128,
        forall|i: int| 0 <= i < name.len() ==> name[i] != '\0',
    ensures
        entry_name(HeaderEntryView { file_path: name_field(encode_utf8(name)), file_size, offset })
            == Some(name),
{
    broadcast use encode_utf8_valid_utf8, encode_utf8_decode_utf8;

    let enc = encode_utf8(name);
    let k = (128 - enc.len()) as nat;
    let nuls = Seq::new(k, |i: int| '\0');
    lemma_encode_nuls(k);
    lemma_encode_utf8_concat(name, nuls);
    let field = name_field(enc);
    assert(field =~= enc + Seq::new(k, |i: int| 0u8));
    let cs = name + nuls;
    assert(field == encode_utf8(cs));
    assert(decode_utf8(field) == cs);
    assert(valid_utf8(field));
    lemma_first_nul_skip(cs, 0, name.len() as int);
    assert(first_nul_from(cs, name.len() as int) == name.len());
    assert(until_nul(cs) =~= name);
}

/// Law: an encoded entry is its name field byte for byte, then its size, then
/// its offset, each as 8 little-endian bytes: 144 bytes in all.
pub proof fn law_entry_bytes_layout(e: HeaderEntryView)
    requires
        entry_wf(e),
    ensures
        entry_bytes(e).len() == 144,
        entry_bytes(e).subrange(0, 128) == e.file_path,
        entry_bytes(e).subrange(128, 136) == spec_u64_to_le_bytes(e.file_size),
        entry_bytes(e).subrange(136, 144) == spec_u64_to_le_bytes(e.offset),
{
    lemma_auto_spec_u64_to_from_le_bytes();
    let b = entry_bytes(e);
    assert(b.subrange(0, 128) =~= e.file_path);
    assert(b.subrange(128, 136) =~= spec_u64_to_le_bytes(e.file_size));
    assert(b.subrange(136, 144) =~= spec_u64_to_le_bytes(e.offset));
}

/// Law: an entry is read from the first 144 bytes alone: its name field is
/// bytes 0..128, its size the little-endian bytes 128..136 and its offset the
/// little-endian bytes 136..144; bytes after these change nothing.
pub proof fn law_entry_from_bytes_fields(b: Seq<u8>, extra: Seq<u8>)
    requires
        b.len() >= 144,
    ensures
        entry_from_bytes(b).file_path == b.subrange(0, 128),
        entry_from_bytes(b).file_size == spec_u64_from_le_bytes(b.subrange(128, 136)),
        entry_from_bytes(b).offset == spec_u64_from_le_bytes(b.subrange(136, 144)),
        entry_from_bytes(b) == entry_from_bytes(b.subrange(0, 144)),
        entry_from_bytes(b + extra) == entry_from_bytes(b),
{
    let c = b + extra;
    let p = b.subrange(0, 144);
    assert(c.subrange(0, 128) =~= b.subrange(0, 128));
    assert(c.subrange(128, 136) =~= b.subrange(128, 136));
    assert(c.subrange(136, 144) =~= b.subrange(136, 144));
    assert(p.subrange(0, 128) =~= b.subrange(0, 128));
    assert(p.subrange(128, 136) =~= b.subrange(128, 136));
    assert(p.subrange(136, 144) =~= b.subrange(136, 144));
    assert(entry_from_bytes(c) =~= entry_from_bytes(b));
    assert(entry_from_bytes(p) =~= entry_from_bytes(b));
}

/// Law: a header is read field by field from fixed places: the entry count,
/// header size and container size from the little-endian bytes 0..8, 8..16
/// and 16..24, and entry `i`, in the order they are stored, from bytes
/// `24 + 144 * i` onward (name field, size, offset). It is read exactly when
/// the bytes hold all `num_entries` entries.
pub proof fn law_parse_header_fields(b: Seq<u8>)
    ensures
        parse_header(b).is_some() <==> b.len() >= 24 && b.len() >= 24 + 144
            * spec_u64_from_le_bytes(b.subrange(0, 8)),
        parse_header(b) matches Some(h) ==> {
            &&& h.num_entries == spec_u64_from_le_bytes(b.subrange(0, 8))
            &&& h.header_size == spec_u64_from_le_bytes(b.subrange(8, 16))
            &&& h.total_size == spec_u64_from_le_bytes(b.subrange(16, 24))
            &&& h.entries.len() == h.num_entries
            &&& forall|i: int|
                0 <= i < h.entries.len() ==> {
                    &&& (#[trigger] h.entries[i]).file_path == b.subrange(24 + 144 * i, 24 + 144 * i + 128)
                    &&& h.entries[i].file_size == spec_u64_from_le_bytes(
                        b.subrange(24 + 144 * i + 128, 24 + 144 * i + 136),
                    )
                    &&& h.entries[i].offset == spec_u64_from_le_bytes(
                        b.subrange(24 + 144 * i + 136, 24 + 144 * i + 144),
                    )
                }
        },
{
    if let Some(h) = parse_header(b) {
        assert forall|i: int| 0 <= i < h.entries.len() implies {
            &&& (#[trigger] h.entries[i]).file_path == b.subrange(24 + 144 * i, 24 + 144 * i + 128)
            &&& h.entries[i].file_size == spec_u64_from_le_bytes(
                b.subrange(24 + 144 * i + 128, 24 + 144 * i + 136),
            )
            &&& h.entries[i].offset == spec_u64_from_le_bytes(
                b.subrange(24 + 144 * i + 136, 24 + 144 * i + 144),
            )
        } by {
            let blk = b.subrange(24 + 144 * i, 24 + 144 * i + 144);
            assert(h.entries[i] == entry_from_bytes(blk));
            assert(blk.subrange(0, 128) =~= b.subrange(24 + 144 * i, 24 + 144 * i + 128));
            assert(blk.subrange(128, 136) =~= b.subrange(24 + 144 * i + 128, 24 + 144 * i + 136));
            assert(blk.subrange(136, 144) =~= b.subrange(24 + 144 * i + 136, 24 + 144 * i + 144));
        }
    }
}

/// Law: an encoded header is the entry count, the header size and the
/// container size as little-endian bytes 0..8, 8..16 and 16..24, then every
/// entry in order: entry `i` at bytes `24 + 144 * i` onward, its name field
/// byte for byte, then its size and offset.
pub proof fn law_header_bytes_layout(h: HeaderView)
    requires
        forall|i: int| 0 <= i < h.entries.len() ==> entry_wf(#[trigger] h.entries[i]),
    ensures
        header_bytes(h).len() == 24 + 144 * h.entries.len(),
        header_bytes(h).subrange(0, 8) == spec_u64_to_le_bytes(h.num_entries),
        header_bytes(h).subrange(8, 16) == spec_u64_to_le_bytes(h.header_size),
        header_bytes(h).subrange(16, 24) == spec_u64_to_le_bytes(h.total_size),
        forall|i: int|
            0 <= i < h.entries.len() ==> {
                &&& header_bytes(h).subrange(24 + 144 * i, 24 + 144 * i + 128) == (#[trigger] h.entries[i]).file_path
                &&& header_bytes(h).subrange(24 + 144 * i + 128, 24 + 144 * i + 136)
                    == spec_u64_to_le_bytes(h.entries[i].file_size)
                &&& header_bytes(h).subrange(24 + 144 * i + 136, 24 + 144 * i + 144)
                    == spec_u64_to_le_bytes(h.entries[i].offset)
            },
{
    lemma_auto_spec_u64_to_from_le_bytes();
    let b = header_bytes(h);
    let eb = entries_bytes(h.entries);
    lemma_entries_bytes_len(h.entries);
    assert(b.subrange(0, 8) =~= spec_u64_to_le_bytes(h.num_entries));
    assert(b.subrange(8, 16) =~= spec_u64_to_le_bytes(h.header_size));
    assert(b.subrange(16, 24) =~= spec_u64_to_le_bytes(h.total_size));
    assert forall|i: int| 0 <= i < h.entries.len() implies {
        &&& b.subrange(24 + 144 * i, 24 + 144 * i + 128) == (#[trigger] h.entries[i]).file_path
        &&& b.subrange(24 + 144 * i + 128, 24 + 144 * i + 136) == spec_u64_to_le_bytes(h.entries[i].file_size)
        &&& b.subrange(24 + 144 * i + 136, 24 + 144 * i + 144) == spec_u64_to_le_bytes(h.entries[i].offset)
    } by {
        lemma_entries_bytes_index(h.entries, i);
        law_entry_bytes_layout(h.entries[i]);
        let eblk = entry_bytes(h.entries[i]);
        assert(eb.subrange(144 * i, 144 * i + 144) == eblk);
        assert(b.subrange(24 + 144 * i, 24 + 144 * i + 128) =~= eblk.subrange(0, 128));
        assert(b.subrange(24 + 144 * i + 128, 24 + 144 * i + 136) =~= eblk.subrange(128, 136));
        assert(b.subrange(24 + 144 * i + 136, 24 + 144 * i + 144) =~= eblk.subrange(136, 144));
    }
}

/// Law: the description of one entry alone is that entry's description.
pub proof fn law_join_entry_texts_single(e: HeaderEntryView)
    ensures
        join_entry_texts(seq![e]) == entry_debug_text(entry_name(e).unwrap(), e),
{
}

/// Law: a list of entry descriptions has `", "` between every two
/// consecutive ones: cut anywhere between entries, it is the text of the
/// entries before the cut, `", "`, and the text of the entries after it.
pub proof fn law_join_entry_texts_split(es: Seq<HeaderEntryView>, k: int)
    requires
        0 < k < es.len(),
    ensures
        join_entry_texts(es) == join_entry_texts(es.take(k)) + ", "@ + join_entry_texts(es.skip(k)),
    decreases es.len(),
{
    let front = es.drop_last();
    let last = es.last();
    let d = entry_debug_text(entry_name(last).unwrap(), last);
    if k == es.len() - 1 {
        assert(es.take(k) =~= front);
        assert(es.skip(k) =~= seq![last]);
    } else {
        law_join_entry_texts_split(front, k);
        assert(front.take(k) =~= es.take(k));
        let tail = es.skip(k);
        assert(tail.len() >= 2);
        assert(tail.drop_last() =~= front.skip(k));
        assert(tail.last() == last);
        assert(join_entry_texts(tail) == join_entry_texts(tail.drop_last()) + ", "@ + d);
        assert(join_entry_texts(es) =~= join_entry_texts(es.take(k)) + ", "@ + join_entry_texts(tail));
    }
}

} // verus!
