use vstd::prelude::*;
use vstd::bytes::*;
use vstd::slice::*;
use vstd::string::*;
use vstd::utf8::*;

use crate::text::{decimal, push_decimal};

verus! {

/// Number of bytes a file name occupies in an encoded entry.
pub const FILE_PATH_LEN: usize = 128;

/// Number of bytes of one encoded header entry: the file name, then the
/// size and the offset as little-endian `u64`s.
pub const HEADER_ENTRY_IN_BYTES: usize = 144;

/// One file of the container: its (NUL-padded) name, its size in bytes and
/// where its data starts, relative to the start of the container.
#[derive(Copy, Clone, PartialEq, Eq)]
pub struct HeaderEntry {
    file_path: [u8; 128],
    file_size: u64,
    offset: u64,
}

/// The mathematical content of a [`HeaderEntry`].
#[verifier::ext_equal]
pub struct HeaderEntryView {
    pub file_path: Seq<u8>,
    pub file_size: u64,
    pub offset: u64,
}

impl View for HeaderEntry {
    type V = HeaderEntryView;

    closed spec fn view(&self) -> HeaderEntryView {
        HeaderEntryView { file_path: self.file_path@, file_size: self.file_size, offset: self.offset }
    }
}

/// A view of an entry that a `HeaderEntry` can hold: a name field of exactly
/// `FILE_PATH_LEN` bytes.
pub open spec fn entry_wf(e: HeaderEntryView) -> bool {
    e.file_path.len() == 128
}

/// The bytes that encode an entry.
pub open spec fn entry_bytes(e: HeaderEntryView) -> Seq<u8> {
    e.file_path + spec_u64_to_le_bytes(e.file_size) + spec_u64_to_le_bytes(e.offset)
}

/// The entry that the first `HEADER_ENTRY_IN_BYTES` bytes of `b` encode.
pub open spec fn entry_from_bytes(b: Seq<u8>) -> HeaderEntryView {
    HeaderEntryView {
        file_path: b.subrange(0, 128),
        file_size: spec_u64_from_le_bytes(b.subrange(128, 136)),
        offset: spec_u64_from_le_bytes(b.subrange(136, 144)),
    }
}

/// The name field built from the bytes of a file name: the first
/// `FILE_PATH_LEN` of them, padded with zero bytes.
pub open spec fn name_field(name: Seq<u8>) -> Seq<u8> {
    Seq::new(128, |i: int| if i < name.len() { name[i] } else { 0u8 })
}

/// Appends `bytes` to `res`.
fn push_all(res: &mut Vec<u8>, bytes: &[u8])
    ensures
        final(res)@ == old(res)@ + bytes@,
{
    let mut i: usize = 0;
    while i < bytes.len()
        invariant
            i <= bytes@.len(),
            res@ =~= old(res)@ + bytes@.subrange(0, i as int),
        decreases bytes@.len() - i,
    {
        res.push(bytes[i]);
        i = i + 1;
    }
    assert(bytes@.subrange(0, bytes@.len() as int) =~= bytes@);
}

impl HeaderEntry {
    /// Builds the entry of a file named `filename_arg`: the first
    /// `FILE_PATH_LEN` bytes of the name's UTF-8 encoding, padded with zeros.
    pub fn new(filename_arg: &str, file_size: u64, offset: u64) -> (r: HeaderEntry)
        ensures
            r@ == (HeaderEntryView {
                file_path: name_field(filename_arg.spec_bytes()),
                file_size,
                offset,
            }),
    {
        let name = filename_arg.as_bytes();
        let mut filename = [0u8; 128];
        let mut i: usize = 0;
        while i < FILE_PATH_LEN && i < name.len()
            invariant
                i <= 128,
                i <= name@.len(),
                name@ == filename_arg.spec_bytes(),
                forall|j: int| 0 <= j < i ==> filename@[j] == name@[j],
                forall|j: int| i <= j < 128 ==> filename@[j] == 0u8,
            decreases 128 - i,
        {
            filename[i] = name[i];
            i = i + 1;
        }
        let r = HeaderEntry { file_path: filename, file_size, offset };
        assert(r@.file_path =~= name_field(filename_arg.spec_bytes()));
        r
    }

    /// Reads an entry from the front of `res`; `None` when `res` is shorter
    /// than `HEADER_ENTRY_IN_BYTES`.
    pub fn load(res: &[u8]) -> (r: Option<HeaderEntry>)
        ensures
            r.is_some() <==> res@.len() >= HEADER_ENTRY_IN_BYTES,
            r matches Some(e) ==> e@ == entry_from_bytes(res@),
    {
        if res.len() < HEADER_ENTRY_IN_BYTES {
            return None;
        }
        let mut file_path = [0u8; 128];
        let mut i: usize = 0;
        while i < FILE_PATH_LEN
            invariant
                i <= 128,
                res@.len() >= 144,
                forall|j: int| 0 <= j < i ==> file_path@[j] == res@[j],
            decreases 128 - i,
        {
            file_path[i] = res[i];
            i = i + 1;
        }
        let file_size = u64_from_le_bytes(slice_subrange(res, 128, 136));
        let offset = u64_from_le_bytes(slice_subrange(res, 136, 144));
        let e = HeaderEntry { file_path, file_size, offset };
        assert(e@.file_path =~= res@.subrange(0, 128));
        Some(e)
    }

    /// Appends the encoding of this entry to `res`.
    pub fn save_to(&self, res: &mut Vec<u8>) -> (r: Option<()>)
        ensures
            r == Some(()),
            final(res)@ == old(res)@ + entry_bytes(self@),
    {
        push_all(res, self.file_path.as_slice());
        let size_bytes = u64_to_le_bytes(self.file_size);
        push_all(res, size_bytes.as_slice());
        let offset_bytes = u64_to_le_bytes(self.offset);
        push_all(res, offset_bytes.as_slice());
        assert(res@ =~= old(res)@ + entry_bytes(self@));
        Some(())
    }

    /// Where the file's data starts, relative to the start of the container.
    pub fn offset(&self) -> (r: u64)
        ensures
            r == self@.offset,
    {
        self.offset
    }

    /// The number of bytes of the file.
    pub fn file_size(&self) -> (r: u64)
        ensures
            r == self@.file_size,
    {
        self.file_size
    }

    /// The whole name field, padding included.
    pub fn file_path(&self) -> (r: &[u8])
        ensures
            r@ == self@.file_path,
    {
        self.file_path.as_slice()
    }

    /// Every entry's name field has exactly `FILE_PATH_LEN` bytes.
    pub proof fn lemma_wf(&self)
        ensures
            entry_wf(self@),
    {
    }
}

impl Default for HeaderEntry {
    fn default() -> (r: HeaderEntry)
        ensures
            r@ == (HeaderEntryView { file_path: Seq::new(128, |i: int| 0u8), file_size: 0, offset: 0 }),
    {
        let r = HeaderEntry { file_path: [0u8; 128], file_size: 0, offset: 0 };
        assert(r@.file_path =~= Seq::new(128, |i: int| 0u8));
        r
    }
}


/// Number of bytes before the first entry: the entry count, the header size
/// and the container size, each a little-endian `u64`.
pub const HEADER_FIXED_BYTES: usize = 24;

/// The table of contents of a container.
#[derive(Clone, PartialEq, Eq)]
pub struct Header {
    pub num_entries: u64,
    /// size of the header segment in bytes, includes everything header related
    pub header_size: u64,
    /// size of the entire container in bytes
    pub total_size: u64,
    /// contains data about every file in the container
    pub entries: Vec<HeaderEntry>,
}

/// The mathematical content of a [`Header`].
#[verifier::ext_equal]
pub struct HeaderView {
    pub num_entries: u64,
    pub header_size: u64,
    pub total_size: u64,
    pub entries: Seq<HeaderEntryView>,
}

impl View for Header {
    type V = HeaderView;

    open spec fn view(&self) -> HeaderView {
        HeaderView {
            num_entries: self.num_entries,
            header_size: self.header_size,
            total_size: self.total_size,
            entries: self.entries@.map_values(|e: HeaderEntry| e@),
        }
    }
}

/// The bytes that encode a sequence of entries, one after the other.
pub open spec fn entries_bytes(es: Seq<HeaderEntryView>) -> Seq<u8>
    decreases es.len(),
{
    if es.len() == 0 {
        Seq::empty()
    } else {
        entries_bytes(es.drop_last()) + entry_bytes(es.last())
    }
}

/// The bytes that encode a header: the three sizes, then every entry.
pub open spec fn header_bytes(h: HeaderView) -> Seq<u8> {
    spec_u64_to_le_bytes(h.num_entries) + spec_u64_to_le_bytes(h.header_size)
        + spec_u64_to_le_bytes(h.total_size) + entries_bytes(h.entries)
}

/// The number of bytes a header with `n` entries occupies.
pub open spec fn header_len(n: nat) -> int {
    24 + 144 * (n as int)
}

/// The `i`-th entry of the header encoded at the start of `b`.
pub open spec fn entry_at(b: Seq<u8>, i: int) -> HeaderEntryView {
    entry_from_bytes(b.subrange(24 + 144 * i, 24 + 144 * i + 144))
}

/// The header encoded at the start of `b`, if `b` holds all of it: the three
/// sizes, then as many entries as the first of them says.
pub open spec fn parse_header(b: Seq<u8>) -> Option<HeaderView> {
    if b.len() < 24 {
        None
    } else {
        let n = spec_u64_from_le_bytes(b.subrange(0, 8));
        if b.len() < header_len(n as nat) {
            None
        } else {
            Some(HeaderView {
                num_entries: n,
                header_size: spec_u64_from_le_bytes(b.subrange(8, 16)),
                total_size: spec_u64_from_le_bytes(b.subrange(16, 24)),
                entries: Seq::new(n as nat, |i: int| entry_at(b, i)),
            })
        }
    }
}

impl Header {
    /// Reads the three sizes at the start of a header: the entry count, the
    /// header size and the container size. `None` when `res` is shorter than
    /// `HEADER_FIXED_BYTES`.
    pub fn read_sizes(res: &[u8]) -> (r: Option<(u64, u64, u64)>)
        ensures
            r.is_some() <==> res@.len() >= 24,
            r matches Some(t) ==> {
                &&& t.0 == spec_u64_from_le_bytes(res@.subrange(0, 8))
                &&& t.1 == spec_u64_from_le_bytes(res@.subrange(8, 16))
                &&& t.2 == spec_u64_from_le_bytes(res@.subrange(16, 24))
            },
    {
        if res.len() < HEADER_FIXED_BYTES {
            return None;
        }
        let num_entries = u64_from_le_bytes(slice_subrange(res, 0, 8));
        let header_size = u64_from_le_bytes(slice_subrange(res, 8, 16));
        let total_size = u64_from_le_bytes(slice_subrange(res, 16, 24));
        Some((num_entries, header_size, total_size))
    }

    /// Reads a header from the front of `res`: the three sizes, then
    /// `num_entries` entries. `None` when `res` is too short for them. The
    /// entry count must be small enough that `num_entries` entries of
    /// `HEADER_ENTRY_IN_BYTES` bytes fit in `isize::MAX` bytes: a larger count
    /// is a count for which no vector of entries can exist.
    pub fn load(res: &[u8]) -> (r: Option<Header>)
        requires
            res@.len() >= 24 ==> 144 * spec_u64_from_le_bytes(res@.subrange(0, 8)) <= isize::MAX,
        ensures
            r.is_some() <==> parse_header(res@).is_some(),
            r matches Some(h) ==> h@ == parse_header(res@).unwrap(),
    {
        let (num_entries, header_size, total_size) = match Header::read_sizes(res) {
            Some(t) => t,
            None => return None,
        };
        let mut entries: Vec<HeaderEntry> = Vec::new();
        let mut pos: usize = HEADER_FIXED_BYTES;
        let mut i: u64 = 0;
        while i < num_entries
            invariant
                res@.len() >= 24,
                num_entries == spec_u64_from_le_bytes(res@.subrange(0, 8)),
                i <= num_entries,
                pos == 24 + 144 * i,
                pos <= res@.len(),
                entries@.len() == i,
                forall|k: int| 0 <= k < i ==> #[trigger] entries@[k]@ == entry_at(res@, k),
            decreases num_entries - i,
        {
            if res.len() - pos < HEADER_ENTRY_IN_BYTES {
                assert(res@.len() < header_len(num_entries as nat));
                return None;
            }
            let e = match HeaderEntry::load(slice_subrange(res, pos, pos + HEADER_ENTRY_IN_BYTES)) {
                Some(e) => e,
                None => return None,
            };
            entries.push(e);
            pos = pos + HEADER_ENTRY_IN_BYTES;
            i = i + 1;
        }
        let h = Header { num_entries, header_size, total_size, entries };
        assert(h@.entries =~= Seq::new(num_entries as nat, |k: int| entry_at(res@, k)));
        Some(h)
    }
}

impl Header {
    /// Appends the encoding of this header to `res`: the three sizes, then
    /// every entry of `entries`.
    pub fn save_to(&self, res: &mut Vec<u8>) -> (r: Option<()>)
        ensures
            r == Some(()),
            final(res)@ == old(res)@ + header_bytes(self@),
    {
        let b = u64_to_le_bytes(self.num_entries);
        push_all(res, b.as_slice());
        let b = u64_to_le_bytes(self.header_size);
        push_all(res, b.as_slice());
        let b = u64_to_le_bytes(self.total_size);
        push_all(res, b.as_slice());
        let ghost start = res@;
        let ghost es = self@.entries;
        let mut i: usize = 0;
        while i < self.entries.len()
            invariant
                i <= self.entries@.len(),
                es == self@.entries,
                res@ == start + entries_bytes(es.take(i as int)),
            decreases self.entries@.len() - i,
        {
            let ghost before = res@;
            self.entries[i].save_to(res);
            proof {
                assert(es.take(i + 1).drop_last() =~= es.take(i as int));
                assert(es.take(i + 1).last() == es[i as int]);
            }
            i = i + 1;
        }
        assert(es.take(es.len() as int) =~= es);
        assert(start =~= old(res)@ + spec_u64_to_le_bytes(self.num_entries)
            + spec_u64_to_le_bytes(self.header_size) + spec_u64_to_le_bytes(self.total_size));
        assert(res@ =~= old(res)@ + header_bytes(self@));
        Some(())
    }

    /// The number of bytes of the whole header whose first bytes are
    /// `prefix`, as the entry count there says; `None` when `prefix` is
    /// shorter than `HEADER_FIXED_BYTES` or the length does not fit in a `u64`.
    pub fn required_len(prefix: &[u8]) -> (r: Option<u64>)
        ensures
            r.is_some() <==> prefix@.len() >= 24
                && header_len(spec_u64_from_le_bytes(prefix@.subrange(0, 8)) as nat) <= u64::MAX,
            r matches Some(n) ==> n == header_len(spec_u64_from_le_bytes(prefix@.subrange(0, 8)) as nat),
    {
        let (num_entries, _, _) = match Header::read_sizes(prefix) {
            Some(t) => t,
            None => return None,
        };
        if num_entries > (u64::MAX - 24) / 144 {
            return None;
        }
        Some(24 + 144 * num_entries)
    }
}

impl Default for Header {
    fn default() -> (r: Header)
        ensures
            r@ == (HeaderView { num_entries: 0, header_size: 0, total_size: 0, entries: Seq::empty() }),
    {
        let r = Header { num_entries: 0, header_size: 0, total_size: 0, entries: Vec::new() };
        assert(r@.entries =~= Seq::<HeaderEntryView>::empty());
        r
    }
}

/// The index of the first NUL character of `cs` at or after `i`, or
/// `cs.len()` when there is none.
pub open spec fn first_nul_from(cs: Seq<char>, i: int) -> int
    decreases cs.len() - i,
{
    if i < 0 || i >= cs.len() {
        cs.len() as int
    } else if cs[i] == '\0' {
        i
    } else {
        first_nul_from(cs, i + 1)
    }
}

/// The characters of `cs` before its first NUL character (all of them when
/// there is none).
pub open spec fn until_nul(cs: Seq<char>) -> Seq<char> {
    cs.take(first_nul_from(cs, 0))
}

/// The name an entry holds: its name field read as UTF-8 and cut at the first
/// NUL; `None` when the field is not valid UTF-8.
pub open spec fn entry_name(e: HeaderEntryView) -> Option<Seq<char>> {
    if valid_utf8(e.file_path) {
        Some(until_nul(decode_utf8(e.file_path)))
    } else {
        None
    }
}

/// Calls `std::str::from_utf8`. Trusted: it returns `Ok` exactly when `bytes`
/// is valid UTF-8 (in the sense of vstd's `valid_utf8`), and then a string
/// whose bytes are `bytes`.
#[verifier::external_body]
fn utf8_str(bytes: &[u8]) -> (r: Option<&str>)
    ensures
        r.is_some() == valid_utf8(bytes@),
        r matches Some(s) ==> s.spec_bytes() == bytes@,
{
    std::str::from_utf8(bytes).ok()
}

/// Calls `==` on two string slices. Trusted: it is true exactly when the two
/// hold the same characters.
#[verifier::external_body]
fn str_eq(a: &str, b: &str) -> (r: bool)
    ensures
        r == (a@ == b@),
{
    a == b
}

impl HeaderEntry {
    /// The file name this entry holds: the name field read as UTF-8 and cut
    /// at its first NUL character; `None` when the field is not valid UTF-8.
    pub fn file_path_as_str(&self) -> (r: Option<&str>)
        ensures
            r.is_some() == entry_name(self@).is_some(),
            r matches Some(s) ==> entry_name(self@) == Some(s@),
    {
        let s = match utf8_str(self.file_path.as_slice()) {
            Some(s) => s,
            None => return None,
        };
        proof {
            broadcast use encode_utf8_decode_utf8;
            assert(decode_utf8(encode_utf8(s@)) == s@);
            assert(decode_utf8(self@.file_path) == s@);
        }
        let n = s.unicode_len();
        let mut i: usize = 0;
        while i < n
            invariant
                n == s@.len(),
                i <= n,
                valid_utf8(self@.file_path),
                decode_utf8(self@.file_path) == s@,
                first_nul_from(s@, 0) == first_nul_from(s@, i as int),
            decreases n - i,
        {
            if s.get_char(i) == '\0' {
                return Some(s.substring_char(0, i));
            }
            i = i + 1;
        }
        Some(s.substring_char(0, n))
    }
}

impl Header {
    /// The index of the first entry whose name is `path`; `None` when no
    /// entry has that name.
    pub fn find_entry(&self, path: &str) -> (r: Option<usize>)
        ensures
            match r {
                Some(i) => {
                    &&& i < self@.entries.len()
                    &&& entry_name(self@.entries[i as int]) == Some(path@)
                    &&& forall|j: int| 0 <= j < i ==> entry_name(#[trigger] self@.entries[j]) != Some(path@)
                },
                None => forall|j: int|
                    0 <= j < self@.entries.len() ==> entry_name(#[trigger] self@.entries[j]) != Some(path@),
            },
    {
        let mut i: usize = 0;
        while i < self.entries.len()
            invariant
                i <= self@.entries.len(),
                forall|j: int| 0 <= j < i ==> entry_name(#[trigger] self@.entries[j]) != Some(path@),
            decreases self@.entries.len() - i,
        {
            match self.entries[i].file_path_as_str() {
                Some(name) => {
                    if str_eq(name, path) {
                        return Some(i);
                    }
                },
                None => {},
            }
            i = i + 1;
        }
        None
    }

    /// Every entry's name field has exactly `FILE_PATH_LEN` bytes.
    pub proof fn lemma_entries_wf(&self)
        ensures
            forall|i: int| 0 <= i < self@.entries.len() ==> entry_wf(#[trigger] self@.entries[i]),
    {
        assert forall|i: int| 0 <= i < self@.entries.len() implies entry_wf(#[trigger] self@.entries[i]) by {
            self.entries@[i].lemma_wf();
        }
    }
}

/// The text that describes an entry named `name`, as in
/// `HeaderEntry { filename: "clip.webm", file_size: 12, offset: 312 }`.
pub open spec fn entry_debug_text(name: Seq<char>, e: HeaderEntryView) -> Seq<char> {
    "HeaderEntry { filename: \""@ + name + "\", file_size: "@ + decimal(e.file_size as nat)
        + ", offset: "@ + decimal(e.offset as nat) + " }"@
}

/// The text that lists the given entry descriptions, comma separated.
pub open spec fn join_entry_texts(es: Seq<HeaderEntryView>) -> Seq<char>
    decreases es.len(),
{
    if es.len() == 0 {
        Seq::empty()
    } else if es.len() == 1 {
        entry_debug_text(entry_name(es[0]).unwrap(), es[0])
    } else {
        join_entry_texts(es.drop_last()) + ", "@ + entry_debug_text(
            entry_name(es.last()).unwrap(),
            es.last(),
        )
    }
}

/// The text that describes a header, its entries described one by one.
pub open spec fn header_debug_text(h: HeaderView) -> Seq<char> {
    "Header { num_entries: "@ + decimal(h.num_entries as nat) + ", header_size: "@ + decimal(
        h.header_size as nat,
    ) + ", total_size: "@ + decimal(h.total_size as nat) + ", entries: ["@ + join_entry_texts(
        h.entries,
    ) + "] }"@
}

impl HeaderEntry {
    /// Describes the entry: its name, size and offset. The name field must be
    /// valid UTF-8.
    pub fn debug_text(&self) -> (r: String)
        requires
            entry_name(self@).is_some(),
        ensures
            r@ == entry_debug_text(entry_name(self@).unwrap(), self@),
    {
        let name = self.file_path_as_str().unwrap();
        let mut out = String::new();
        out.append("HeaderEntry { filename: \"");
        out.append(name);
        out.append("\", file_size: ");
        push_decimal(&mut out, self.file_size);
        out.append(", offset: ");
        push_decimal(&mut out, self.offset);
        out.append(" }");
        assert(out@ =~= entry_debug_text(entry_name(self@).unwrap(), self@));
        out
    }
}

impl Header {
    /// Describes the header: its three sizes and each of its entries. The
    /// name field of every entry must be valid UTF-8.
    pub fn debug_text(&self) -> (r: String)
        requires
            forall|i: int| 0 <= i < self@.entries.len() ==> entry_name(#[trigger] self@.entries[i]).is_some(),
        ensures
            r@ == header_debug_text(self@),
    {
        let mut out = String::new();
        out.append("Header { num_entries: ");
        push_decimal(&mut out, self.num_entries);
        out.append(", header_size: ");
        push_decimal(&mut out, self.header_size);
        out.append(", total_size: ");
        push_decimal(&mut out, self.total_size);
        out.append(", entries: [");
        let ghost start = out@;
        let ghost es = self@.entries;
        let mut i: usize = 0;
        while i < self.entries.len()
            invariant
                i <= es.len(),
                es == self@.entries,
                forall|k: int| 0 <= k < es.len() ==> entry_name(#[trigger] es[k]).is_some(),
                out@ == start + join_entry_texts(es.take(i as int)),
            decreases es.len() - i,
        {
            if i > 0 {
                out.append(", ");
            }
            assert(es[i as int] == self.entries@[i as int]@);
            assert(entry_name(es[i as int]).is_some());
            let t = self.entries[i].debug_text();
            out.append(t.as_str());
            proof {
                let tk = es.take(i + 1);
                assert(tk.drop_last() =~= es.take(i as int));
                assert(tk.last() == es[i as int]);
                if i == 0 {
                    assert(es.take(0) =~= Seq::<HeaderEntryView>::empty());
                    assert(tk.len() == 1);
                    assert(tk[0] == es[0]);
                }
            }
            i = i + 1;
            assert(out@ =~= start + join_entry_texts(es.take(i as int)));
        }
        out.append("] }");
        assert(es.take(es.len() as int) =~= es);
        assert(out@ =~= header_debug_text(self@));
        out
    }
}

} // verus!
