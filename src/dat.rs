//! Resource archives: a trailing footer, a directory of entries before it,
//! and the stored or zlib-compressed bytes of each entry.
use vstd::prelude::*;
use vstd::utf8::{decode_utf8, decode_utf8_encode_utf8, encode_utf8, valid_utf8};

use zune_inflate::errors::InflateDecodeErrors;
use zune_inflate::DeflateDecoder;

use crate::bytes::{read_u32, u32_at};

verus! {

/// Bytes taken by the footer at the end of an archive.
pub const FOOTER_SIZE: usize = 28;

/// Bytes taken by the six 32-bit fields after an entry's name.
pub const ENTRY_FIELDS_SIZE: usize = 24;

/// Bytes between the start of the directory and its first entry.
pub const DIRECTORY_PROLOGUE: usize = 8;

/// Why a footer could not be decoded.
#[derive(Clone, Copy, Debug, PartialEq, Eq, Structural)]
pub enum DatFooterError {
    /// The footer is not exactly 28 bytes long.
    InvalidLength,
    /// A field lies beyond the end of the footer.
    SliceConversion,
    /// The magic tag is not valid UTF-8.
    Utf8Error,
}

/// Why a directory entry could not be decoded.
#[derive(Clone, Copy, Debug, PartialEq, Eq, Structural)]
pub enum DatEntryError {
    /// No zero byte ends the name.
    NoFilenameEnd,
    /// The name is not valid UTF-8.
    FilenameNotUtf8,
    /// The type code is none of the three known ones.
    NoValidDatEntryType,
    /// The fields after the name lie beyond the end of the buffer.
    SliceConversion,
}

/// Why an archive could not be decoded or an entry's bytes not produced.
#[derive(Clone, Copy, Debug, PartialEq, Eq, Structural)]
pub enum DatError {
    /// A field or an entry's bytes lie beyond the end of the buffer.
    Slice,
    /// The buffer is too short to hold a footer.
    InvalidLength,
    /// The footer's magic tag or an entry name is not valid UTF-8.
    Utf8,
    /// No zero byte ends an entry name.
    NoFilenameEnd,
    /// An entry's type code is none of the three known ones.
    NoValidDatEntryType,
    /// The zlib stream of a compressed entry does not inflate.
    Decompression,
}

/// The characters of `bytes` when they are valid UTF-8.
pub open spec fn utf8_text(bytes: Seq<u8>) -> Option<Seq<char>> {
    if valid_utf8(bytes) {
        Some(decode_utf8(bytes))
    } else {
        None
    }
}

/// Relies on `String::from_utf8`: it accepts exactly the byte sequences that
/// are valid UTF-8, and the string then holds the characters they encode.
#[verifier::external_body]
fn utf8_string(bytes: Vec<u8>) -> (r: Option<String>)
    ensures
        r is Some <==> valid_utf8(bytes@),
        r matches Some(s) ==> s@ == decode_utf8(bytes@),
{
    String::from_utf8(bytes).ok()
}

/// The error of zune_inflate's decoder, carried through opaquely.
#[verifier::external_type_specification]
#[verifier::external_body]
pub struct ExInflateDecodeErrors(InflateDecodeErrors);

/// What zlib inflation makes of `data`: the inflated bytes, or `None` when
/// the stream is refused.
pub uninterp spec fn zlib_inflated(data: Seq<u8>) -> Option<Seq<u8>>;

/// Relies on zune_inflate's `DeflateDecoder::decode_zlib` with default
/// options: the outcome depends on the input bytes alone, and input shorter
/// than a zlib header and a deflate block (six bytes) is refused.
#[verifier::external_body]
fn inflate_zlib(data: &[u8]) -> (r: Result<Vec<u8>, InflateDecodeErrors>)
    ensures
        match r {
            Ok(v) => zlib_inflated(data@) == Some(v@),
            Err(_) => zlib_inflated(data@) is None,
        },
        data@.len() < 6 ==> r is Err,
{
    DeflateDecoder::new(data).decode_zlib()
}

/// A copy of `buf[from..to]`.
fn copy_bytes(buf: &[u8], from: usize, to: usize) -> (r: Vec<u8>)
    requires
        from <= to <= buf@.len(),
    ensures
        r@ == buf@.subrange(from as int, to as int),
{
    let mut out: Vec<u8> = Vec::new();
    let mut i: usize = from;
    while i < to
        invariant
            from <= i <= to,
            to <= buf@.len(),
            out@ == buf@.subrange(from as int, i as int),
        decreases to - i,
    {
        out.push(buf[i]);
        i += 1;
        assert(out@ =~= buf@.subrange(from as int, i as int));
    }
    out
}

/// The fixed footer: a UUID, a magic tag, the total bytes of all names, and
/// the distance from the end of the archive back to its directory.
#[derive(Clone, Debug)]
pub struct DatFooter {
    pub uuid: [u8; 16],
    pub magic: String,
    pub filename_total_bytes: u32,
    pub dat_entry_start_from_end: usize,
}

/// Whether `f` is the footer stored in the 28 bytes `s`.
pub open spec fn footer_read_from(f: DatFooter, s: Seq<u8>) -> bool {
    &&& f.uuid@ == s.subrange(0, 16)
    &&& utf8_text(s.subrange(16, 20)) == Some(f.magic@)
    &&& f.filename_total_bytes == u32_at(s, 20)
    &&& f.dat_entry_start_from_end == u32_at(s, 24)
}

impl DatFooter {
    /// Decodes a footer from exactly its 28 bytes.
    pub fn from_buffer(buffer: &[u8]) -> (r: Result<DatFooter, DatFooterError>)
        ensures
            buffer@.len() != 28 ==> r == Err::<DatFooter, DatFooterError>(
                DatFooterError::InvalidLength,
            ),
            buffer@.len() == 28 && !valid_utf8(buffer@.subrange(16, 20)) ==> r == Err::<
                DatFooter,
                DatFooterError,
            >(DatFooterError::Utf8Error),
            buffer@.len() == 28 && valid_utf8(buffer@.subrange(16, 20)) ==> (r matches Ok(f)
                && footer_read_from(f, buffer@)),
    {
        if buffer.len() != FOOTER_SIZE {
            return Err(DatFooterError::InvalidLength);
        }
        let uuid = [
            buffer[0], buffer[1], buffer[2], buffer[3], buffer[4], buffer[5], buffer[6], buffer[7],
            buffer[8], buffer[9], buffer[10], buffer[11], buffer[12], buffer[13], buffer[14],
            buffer[15],
        ];
        assert(uuid@ =~= buffer@.subrange(0, 16));
        let magic = match utf8_string(copy_bytes(buffer, 16, 20)) {
            Some(m) => m,
            None => return Err(DatFooterError::Utf8Error),
        };
        let filename_total_bytes = read_u32(buffer, 20).unwrap();
        let start_from_end = read_u32(buffer, 24).unwrap();
        Ok(DatFooter {
            uuid,
            magic,
            filename_total_bytes,
            dat_entry_start_from_end: start_from_end as usize,
        })
    }
}

/// How an entry's bytes are kept.
#[derive(Clone, Copy, Debug, PartialEq, Eq, Structural)]
pub enum DatEntryType {
    /// Stored as is.
    Stored,
    /// Stored as a zlib stream.
    Compressed,
    /// A directory, with no bytes of its own.
    Directory,
}

/// The entry type of a type code: 0x01, 0x02 and 0x0400 are the known ones.
pub open spec fn entry_type_of(code: u32) -> Option<DatEntryType> {
    if code == 0x01 {
        Some(DatEntryType::Stored)
    } else if code == 0x02 {
        Some(DatEntryType::Compressed)
    } else if code == 0x0400 {
        Some(DatEntryType::Directory)
    } else {
        None
    }
}

/// Classifies a type code.
pub fn entry_type_from_code(code: u32) -> (r: Option<DatEntryType>)
    ensures
        r == entry_type_of(code),
{
    if code == 0x01 {
        Some(DatEntryType::Stored)
    } else if code == 0x02 {
        Some(DatEntryType::Compressed)
    } else if code == 0x0400 {
        Some(DatEntryType::Directory)
    } else {
        None
    }
}

/// One directory entry: a name, the entry type, its sizes and where its bytes
/// lie in the archive, and two fields this library carries through.
#[derive(Clone, Debug)]
pub struct DatEntry {
    pub filename: String,
    pub unk_value: u32,
    pub entry_type: DatEntryType,
    pub original_size: usize,
    pub deflate_size: usize,
    pub offset: usize,
    pub mystery_number: u32,
}

/// The first zero byte at or after `p`, if any.
pub open spec fn name_terminator(s: Seq<u8>, p: int) -> Option<int>
    decreases s.len() - p,
{
    if p < 0 || p >= s.len() {
        None
    } else if s[p] == 0 {
        Some(p)
    } else {
        name_terminator(s, p + 1)
    }
}

/// Why the entry at `p` does not decode, or `None` when it does.
pub open spec fn entry_error(s: Seq<u8>, p: int) -> Option<DatEntryError> {
    match name_terminator(s, p) {
        None => Some(DatEntryError::NoFilenameEnd),
        Some(k) => if !valid_utf8(s.subrange(p, k)) {
            Some(DatEntryError::FilenameNotUtf8)
        } else if k + 25 > s.len() {
            Some(DatEntryError::SliceConversion)
        } else if entry_type_of(u32_at(s, k + 5)) is None {
            Some(DatEntryError::NoValidDatEntryType)
        } else {
            None
        },
    }
}

/// Where the entry at `p` ends: after its name, the zero byte and six fields.
pub open spec fn entry_end(s: Seq<u8>, p: int) -> int {
    name_terminator(s, p)->Some_0 + 25
}

/// Whether `e` is the entry stored at `p`.
#[verifier::opaque]
pub open spec fn entry_read_at(e: DatEntry, s: Seq<u8>, p: int) -> bool {
    let k = name_terminator(s, p)->Some_0;
    &&& e.filename@ == decode_utf8(s.subrange(p, k))
    &&& e.unk_value == u32_at(s, k + 1)
    &&& entry_type_of(u32_at(s, k + 5)) == Some(e.entry_type)
    &&& e.original_size == u32_at(s, k + 9)
    &&& e.deflate_size == u32_at(s, k + 13)
    &&& e.offset == u32_at(s, k + 17)
    &&& e.mystery_number == u32_at(s, k + 21)
}

proof fn lemma_name_terminator(s: Seq<u8>, p: int)
    requires
        0 <= p,
    ensures
        match name_terminator(s, p) {
            Some(k) => p <= k < s.len() && s[k] == 0 && forall|j: int| p <= j < k ==> s[j] != 0,
            None => forall|j: int| p <= j < s.len() ==> s[j] != 0,
        },
    decreases s.len() - p,
{
    if p < s.len() && s[p] != 0 {
        lemma_name_terminator(s, p + 1);
    }
}

impl DatEntry {
    /// Bytes the entry takes in the directory: its name in UTF-8, the zero
    /// byte and the six fields.
    #[verifier::opaque]
    pub open spec fn spec_len(&self) -> int {
        encode_utf8(self.filename@).len() as int + 25
    }

    /// The entry's length fits in a `usize`.
    pub open spec fn wf(&self) -> bool {
        self.spec_len() <= usize::MAX
    }

    /// Bytes the entry takes in the directory.
    pub fn len(&self) -> (r: usize)
        requires
            self.wf(),
        ensures
            r == self.spec_len(),
    {
        proof {
            reveal(DatEntry::spec_len);
        }
        self.filename.as_str().len() + 1 + ENTRY_FIELDS_SIZE
    }

    /// Decodes the entry stored at `at`: a name ended by a zero byte, then six
    /// 32-bit fields.
    pub fn from_buffer(buffer: &[u8], at: usize) -> (r: Result<DatEntry, DatEntryError>)
        ensures
            match entry_error(buffer@, at as int) {
                Some(e) => r == Err::<DatEntry, DatEntryError>(e),
                None => r matches Ok(ent) && entry_placed(ent, buffer@, at as int) && ent.wf()
                    && ent.spec_len() == entry_end(buffer@, at as int) - at,
            },
    {
        let ghost s = buffer@;
        let len = buffer.len();
        proof {
            lemma_name_terminator(s, at as int);
        }
        let mut end = at;
        while end < len && buffer[end] != 0
            invariant
                len == s.len(),
                buffer@ == s,
                at <= end,
                name_terminator(s, at as int) == name_terminator(s, end as int),
            decreases len - end,
        {
            end += 1;
        }
        if end >= len {
            return Err(DatEntryError::NoFilenameEnd);
        }
        let ghost name = s.subrange(at as int, end as int);
        let filename = match utf8_string(copy_bytes(buffer, at, end)) {
            Some(f) => f,
            None => return Err(DatEntryError::FilenameNotUtf8),
        };
        if len - end < 25 {
            return Err(DatEntryError::SliceConversion);
        }
        let unk_value = read_u32(buffer, end + 1).unwrap();
        let code = read_u32(buffer, end + 5).unwrap();
        let original_size = read_u32(buffer, end + 9).unwrap();
        let deflate_size = read_u32(buffer, end + 13).unwrap();
        let offset = read_u32(buffer, end + 17).unwrap();
        let mystery_number = read_u32(buffer, end + 21).unwrap();
        let entry_type = match entry_type_from_code(code) {
            Some(t) => t,
            None => return Err(DatEntryError::NoValidDatEntryType),
        };
        proof {
            decode_utf8_encode_utf8(name);
        }
        let entry = DatEntry {
            filename,
            unk_value,
            entry_type,
            original_size: original_size as usize,
            deflate_size: deflate_size as usize,
            offset: offset as usize,
            mystery_number,
        };
        proof {
            reveal(entry_read_at);
            reveal(entry_placed);
            reveal(DatEntry::spec_len);
        }
        Ok(entry)
    }
}

/// The archive error for an entry error.
pub open spec fn entry_to_dat_error(e: DatEntryError) -> DatError {
    match e {
        DatEntryError::NoFilenameEnd => DatError::NoFilenameEnd,
        DatEntryError::FilenameNotUtf8 => DatError::Utf8,
        DatEntryError::NoValidDatEntryType => DatError::NoValidDatEntryType,
        DatEntryError::SliceConversion => DatError::Slice,
    }
}

fn dat_error_of_entry(e: DatEntryError) -> (r: DatError)
    ensures
        r == entry_to_dat_error(e),
{
    match e {
        DatEntryError::NoFilenameEnd => DatError::NoFilenameEnd,
        DatEntryError::FilenameNotUtf8 => DatError::Utf8,
        DatEntryError::NoValidDatEntryType => DatError::NoValidDatEntryType,
        DatEntryError::SliceConversion => DatError::Slice,
    }
}

/// Where the footer begins.
pub open spec fn footer_start(s: Seq<u8>) -> int {
    s.len() - 28
}

/// Where the directory begins: `dat_entry_start_from_end` bytes before the end.
pub open spec fn directory_start(s: Seq<u8>) -> int {
    s.len() - u32_at(s, s.len() - 4)
}

/// Where the first entry begins, after the directory's prologue.
pub open spec fn entries_base(s: Seq<u8>) -> int {
    directory_start(s) + 8
}

/// The first entry error met when walking the entries from `p` until the
/// walk reaches `end`, or `None` when every entry decodes.
pub open spec fn directory_error(s: Seq<u8>, p: int, end: int) -> Option<DatEntryError>
    decreases s.len() - p,
{
    if p >= end {
        None
    } else {
        match entry_error(s, p) {
            Some(e) => Some(e),
            None => if entry_end(s, p) <= p {
                None
            } else {
                directory_error(s, entry_end(s, p), end)
            },
        }
    }
}

/// Why the archive `s` does not decode, or `None` when it does.
pub open spec fn dat_error(s: Seq<u8>) -> Option<DatError> {
    if s.len() < 28 {
        Some(DatError::InvalidLength)
    } else if !valid_utf8(s.subrange(s.len() - 12, s.len() - 8)) {
        Some(DatError::Utf8)
    } else if directory_start(s) < 0 || directory_start(s) + 4 > s.len() {
        Some(DatError::Slice)
    } else {
        match directory_error(s, entries_base(s), footer_start(s)) {
            Some(e) => Some(entry_to_dat_error(e)),
            None => None,
        }
    }
}

/// Where entry `k` begins: the entries follow one another from `base` on.
pub open spec fn entry_start(es: Seq<DatEntry>, base: int, k: int) -> int
    decreases k,
{
    if k <= 0 {
        base
    } else {
        entry_start(es, base, k - 1) + es[k - 1].spec_len()
    }
}

/// The summed directory lengths of the first `k` entries.
pub open spec fn entries_len(es: Seq<DatEntry>, k: int) -> int
    decreases k,
{
    if k <= 0 {
        0
    } else {
        entries_len(es, k - 1) + es[k - 1].spec_len()
    }
}

/// Whether `e` is the entry stored at `p`, with its directory length.
#[verifier::opaque]
pub open spec fn entry_placed(e: DatEntry, s: Seq<u8>, p: int) -> bool {
    entry_read_at(e, s, p) && e.wf() && e.spec_len() == entry_end(s, p) - p
}

/// Whether each of `es` is stored where the one before it ends, from `base`
/// on, and starts before `end`.
pub open spec fn entries_placed(es: Seq<DatEntry>, s: Seq<u8>, base: int, end: int) -> bool {
    forall|k: int|
        #![trigger es[k]]
        #![trigger entry_start(es, base, k)]
        0 <= k < es.len() ==> entry_start(es, base, k) < end && entry_placed(
            es[k],
            s,
            entry_start(es, base, k),
        )
}

/// Whether `es` are the entries stored from `base` on: each one starts where
/// the one before it ends and before `end`, and the last one reaches `end`.
pub open spec fn entries_tile(es: Seq<DatEntry>, s: Seq<u8>, base: int, end: int) -> bool {
    &&& entries_placed(es, s, base, end)
    &&& entry_start(es, base, es.len() as int) >= end
}

proof fn lemma_entries_placed_push(
    es: Seq<DatEntry>,
    e: DatEntry,
    s: Seq<u8>,
    base: int,
    end: int,
)
    requires
        entries_placed(es, s, base, end),
        entry_start(es, base, es.len() as int) < end,
        entry_placed(e, s, entry_start(es, base, es.len() as int)),
    ensures
        entries_placed(es.push(e), s, base, end),
        entry_start(es.push(e), base, es.len() as int + 1) == entry_start(es, base, es.len() as int)
            + e.spec_len(),
{
    let n = es.push(e);
    lemma_entry_start_prefix(es, n, base, es.len() as int);
    assert forall|k: int|
        #![trigger n[k]]
        #![trigger entry_start(n, base, k)]
        0 <= k < n.len() implies entry_start(n, base, k) < end && entry_placed(
            n[k],
            s,
            entry_start(n, base, k),
        ) by {
        lemma_entry_start_prefix(es, n, base, k);
        if k < es.len() {
            assert(n[k] == es[k]);
        }
    }
}

/// Whether `es` are the entries of the directory of `s`.
pub open spec fn entries_read_from(es: Seq<DatEntry>, s: Seq<u8>) -> bool {
    entries_tile(es, s, entries_base(s), footer_start(s))
}

/// Decodes the entries stored from `base` on until the walk reaches `end`.
#[verifier::rlimit(40)]
fn read_entries(buffer: &[u8], base: usize, end: usize) -> (r: Result<Vec<DatEntry>, DatEntryError>)
    requires
        end <= buffer@.len(),
    ensures
        match r {
            Ok(es) => directory_error(buffer@, base as int, end as int) is None && entries_tile(
                es@,
                buffer@,
                base as int,
                end as int,
            ),
            Err(e) => directory_error(buffer@, base as int, end as int) == Some(e),
        },
{
    let ghost s = buffer@;
    let len = buffer.len();
    let mut entries: Vec<DatEntry> = Vec::new();
    let mut cursor = base;
    while cursor < end
        invariant
            len == s.len(),
            buffer@ == s,
            end <= len,
            base <= cursor,
            cursor < end ==> cursor <= len,
            directory_error(s, base as int, end as int) == directory_error(s, cursor as int, end as int),
            cursor == entry_start(entries@, base as int, entries@.len() as int),
            entries_placed(entries@, s, base as int, end as int),
        decreases len - cursor,
    {
        let entry = match DatEntry::from_buffer(buffer, cursor) {
            Ok(e) => e,
            Err(e) => return Err(e),
        };
        proof {
            lemma_name_terminator(s, cursor as int);
        }
        let step = entry.len();
        proof {
            lemma_entries_placed_push(entries@, entry, s, base as int, end as int);
        }
        entries.push(entry);
        cursor += step;
    }
    Ok(entries)
}

/// A decoded archive: its whole buffer and its directory entries in order.
#[derive(Clone, Debug)]
pub struct Dat {
    entries: Vec<DatEntry>,
    raw: Vec<u8>,
}

impl Dat {
    /// The directory entries in order.
    pub closed spec fn spec_entries(&self) -> Seq<DatEntry> {
        self.entries@
    }

    /// The archive's bytes.
    pub closed spec fn spec_raw(&self) -> Seq<u8> {
        self.raw@
    }

    /// Decodes an archive: the footer from its last 28 bytes, then every
    /// directory entry from the directory's start until the footer.
    pub fn from_buffer(buffer: &[u8]) -> (r: Result<Dat, DatError>)
        ensures
            match r {
                Ok(dat) => dat_error(buffer@) is None && dat.spec_raw() == buffer@
                    && entries_read_from(dat.spec_entries(), buffer@),
                Err(e) => dat_error(buffer@) == Some(e),
            },
    {
        let ghost s = buffer@;
        let len = buffer.len();
        if len < FOOTER_SIZE {
            return Err(DatError::InvalidLength);
        }
        let end = len - FOOTER_SIZE;
        let footer = match DatFooter::from_buffer(&buffer[end..len]) {
            Ok(f) => f,
            Err(DatFooterError::Utf8Error) => {
                assert(s.subrange(end as int, len as int).subrange(16, 20) =~= s.subrange(
                    len - 12,
                    len - 8,
                ));
                return Err(DatError::Utf8);
            },
            Err(_) => return Err(DatError::InvalidLength),
        };
        proof {
            let f = s.subrange(end as int, len as int);
            assert(f.subrange(16, 20) =~= s.subrange(len - 12, len - 8));
            assert(u32_at(f, 24) == u32_at(s, len - 4));
        }
        let from_end = footer.dat_entry_start_from_end;
        if from_end > len {
            return Err(DatError::Slice);
        }
        let start = len - from_end;
        let _num_entries = match read_u32(buffer, start) {
            Some(n) => n,
            None => return Err(DatError::Slice),
        };
        if start >= end || end - start <= DIRECTORY_PROLOGUE {
            return Ok(Dat { entries: Vec::new(), raw: copy_bytes(buffer, 0, len) });
        }
        let entries = match read_entries(buffer, start + DIRECTORY_PROLOGUE, end) {
            Ok(es) => es,
            Err(e) => return Err(dat_error_of_entry(e)),
        };
        Ok(Dat { entries, raw: copy_bytes(buffer, 0, len) })
    }

    /// The directory entries in order.
    pub fn entries(&self) -> (r: &Vec<DatEntry>)
        ensures
            r@ == self.spec_entries(),
    {
        &self.entries
    }

    /// The first entry, in directory order, named exactly `pattern`.
    pub fn get(&self, pattern: &str) -> (r: Option<&DatEntry>)
        ensures
            match r {
                Some(e) => exists|i: int|
                    0 <= i < self.spec_entries().len() && self.spec_entries()[i] == *e
                        && e.filename@ == pattern@ && forall|j: int|
                        0 <= j < i ==> self.spec_entries()[j].filename@ != pattern@,
                None => forall|i: int|
                    0 <= i < self.spec_entries().len() ==> self.spec_entries()[i].filename@
                        != pattern@,
            },
    {
        let name = pattern.to_owned();
        let mut i: usize = 0;
        while i < self.entries.len()
            invariant
                name@ == pattern@,
                i <= self.entries@.len(),
                forall|j: int| 0 <= j < i ==> self.entries@[j].filename@ != pattern@,
            decreases self.entries@.len() - i,
        {
            if self.entries[i].filename == name {
                return Some(&self.entries[i]);
            }
            i += 1;
        }
        None
    }

    /// The first entry, in directory order, whose name `pattern` accepts.
    pub fn get_fn<F: Fn(&String) -> bool>(&self, pattern: F) -> (r: Option<&DatEntry>)
        requires
            forall|name: &String| pattern.requires((name,)),
        ensures
            match r {
                Some(e) => exists|i: int|
                    0 <= i < self.spec_entries().len() && self.spec_entries()[i] == *e
                        && pattern.ensures((&e.filename,), true) && forall|j: int|
                        0 <= j < i ==> pattern.ensures((&self.spec_entries()[j].filename,), false),
                None => forall|i: int|
                    0 <= i < self.spec_entries().len() ==> pattern.ensures(
                        (&self.spec_entries()[i].filename,),
                        false,
                    ),
            },
    {
        let mut i: usize = 0;
        while i < self.entries.len()
            invariant
                forall|name: &String| pattern.requires((name,)),
                i <= self.entries@.len(),
                forall|j: int|
                    0 <= j < i ==> pattern.ensures((&self.entries@[j].filename,), false),
            decreases self.entries@.len() - i,
        {
            if pattern(&self.entries[i].filename) {
                return Some(&self.entries[i]);
            }
            i += 1;
        }
        None
    }

    /// Removes and returns the last entry.
    pub fn pop(&mut self) -> (r: Option<DatEntry>)
        ensures
            final(self).spec_raw() == old(self).spec_raw(),
            match r {
                Some(e) => old(self).spec_entries().len() > 0 && e == old(
                    self,
                ).spec_entries().last() && final(self).spec_entries() == old(
                    self,
                ).spec_entries().drop_last(),
                None => old(self).spec_entries().len() == 0 && final(self).spec_entries() == old(
                    self,
                ).spec_entries(),
            },
    {
        self.entries.pop()
    }

    /// The bytes of `entry`: none for a directory, a copy of its stored bytes
    /// for a stored entry, its zlib stream inflated for a compressed one.
    pub fn bytes(&self, entry: &DatEntry) -> (r: Result<Vec<u8>, DatError>)
        ensures
            match entry.entry_type {
                DatEntryType::Directory => r matches Ok(v) && v@.len() == 0,
                DatEntryType::Stored => if entry.offset + entry.original_size <= self.spec_raw().len() {
                    r matches Ok(v) && v@ == self.spec_raw().subrange(
                        entry.offset as int,
                        entry.offset + entry.original_size,
                    )
                } else {
                    r == Err::<Vec<u8>, DatError>(DatError::Slice)
                },
                DatEntryType::Compressed => if entry.offset + entry.deflate_size
                    <= self.spec_raw().len() {
                    match zlib_inflated(
                        self.spec_raw().subrange(entry.offset as int, entry.offset + entry.deflate_size),
                    ) {
                        Some(b) => r matches Ok(v) && v@ == b,
                        None => r == Err::<Vec<u8>, DatError>(DatError::Decompression),
                    }
                } else {
                    r == Err::<Vec<u8>, DatError>(DatError::Slice)
                },
            },
    {
        let len = self.raw.len();
        match entry.entry_type {
            DatEntryType::Directory => Ok(Vec::new()),
            DatEntryType::Stored => {
                if entry.offset > len || len - entry.offset < entry.original_size {
                    return Err(DatError::Slice);
                }
                Ok(copy_bytes(self.raw.as_slice(), entry.offset, entry.offset + entry.original_size))
            },
            DatEntryType::Compressed => {
                if entry.offset > len || len - entry.offset < entry.deflate_size {
                    return Err(DatError::Slice);
                }
                let stream = &self.raw.as_slice()[entry.offset..entry.offset + entry.deflate_size];
                match inflate_zlib(stream) {
                    Ok(v) => Ok(v),
                    Err(_) => Err(DatError::Decompression),
                }
            },
        }
    }
}

proof fn lemma_entry_start_prefix(a: Seq<DatEntry>, b: Seq<DatEntry>, base: int, k: int)
    requires
        0 <= k <= a.len() <= b.len(),
        forall|j: int| 0 <= j < a.len() ==> a[j] == b[j],
    ensures
        entry_start(a, base, k) == entry_start(b, base, k),
    decreases k,
{
    if k > 0 {
        lemma_entry_start_prefix(a, b, base, k - 1);
    }
}

proof fn lemma_entry_start_sum(es: Seq<DatEntry>, base: int, k: int)
    requires
        0 <= k,
    ensures
        entry_start(es, base, k) == base + entries_len(es, k),
    decreases k,
{
    if k > 0 {
        lemma_entry_start_sum(es, base, k - 1);
    }
}

/// The entries of a decoded archive exactly cover the directory from its
/// first entry to where the walk stopped. So when the last entry ends at the
/// footer their lengths add up to `dat_entry_start_from_end` less the
/// 8-byte prologue and the 28-byte footer, and when it ends at the end of
/// the buffer they add up to `dat_entry_start_from_end` less the prologue.
pub proof fn law_directory_length(s: Seq<u8>, dat: Dat)
    requires
        dat_error(s) is None,
        dat.spec_raw() == s,
        entries_read_from(dat.spec_entries(), s),
    ensures
        entries_len(dat.spec_entries(), dat.spec_entries().len() as int) == entry_start(
            dat.spec_entries(),
            entries_base(s),
            dat.spec_entries().len() as int,
        ) - entries_base(s),
        entry_start(dat.spec_entries(), entries_base(s), dat.spec_entries().len() as int)
            == footer_start(s) ==> entries_len(
            dat.spec_entries(),
            dat.spec_entries().len() as int,
        ) == u32_at(s, s.len() - 4) - 8 - 28,
        entry_start(dat.spec_entries(), entries_base(s), dat.spec_entries().len() as int)
            == s.len() ==> entries_len(dat.spec_entries(), dat.spec_entries().len() as int)
            == u32_at(s, s.len() - 4) - 8,
{
    lemma_entry_start_sum(dat.spec_entries(), entries_base(s), dat.spec_entries().len() as int);
}

/// Two decodings of one buffer give the same entries: as many, with the same
/// names, types, sizes, offsets and other fields, in the same order.
pub proof fn law_dat_decode_deterministic(s: Seq<u8>, a: Dat, b: Dat)
    requires
        entries_read_from(a.spec_entries(), s),
        entries_read_from(b.spec_entries(), s),
    ensures
        a.spec_entries().len() == b.spec_entries().len(),
        forall|k: int|
            0 <= k < a.spec_entries().len() ==> (#[trigger] a.spec_entries()[k]).filename@
                == b.spec_entries()[k].filename@ && a.spec_entries()[k].unk_value
                == b.spec_entries()[k].unk_value && a.spec_entries()[k].entry_type
                == b.spec_entries()[k].entry_type && a.spec_entries()[k].original_size
                == b.spec_entries()[k].original_size && a.spec_entries()[k].deflate_size
                == b.spec_entries()[k].deflate_size && a.spec_entries()[k].offset
                == b.spec_entries()[k].offset && a.spec_entries()[k].mystery_number
                == b.spec_entries()[k].mystery_number,
{
    let ea = a.spec_entries();
    let eb = b.spec_entries();
    let base = entries_base(s);
    let end = footer_start(s);
    lemma_same_count(s, ea, eb);
    assert forall|k: int| 0 <= k < ea.len() implies (#[trigger] ea[k]).filename@ == eb[k].filename@
        && ea[k].unk_value == eb[k].unk_value && ea[k].entry_type == eb[k].entry_type
        && ea[k].original_size == eb[k].original_size && ea[k].deflate_size == eb[k].deflate_size
        && ea[k].offset == eb[k].offset && ea[k].mystery_number == eb[k].mystery_number by {
        lemma_same_starts(s, ea, eb, base, end, k);
        lemma_same_entry(ea[k], eb[k], s, entry_start(ea, base, k));
    }
}

proof fn lemma_same_entry(a: DatEntry, b: DatEntry, s: Seq<u8>, p: int)
    requires
        entry_placed(a, s, p),
        entry_placed(b, s, p),
    ensures
        a.filename@ == b.filename@ && a.unk_value == b.unk_value && a.entry_type == b.entry_type
            && a.original_size == b.original_size && a.deflate_size == b.deflate_size && a.offset
            == b.offset && a.mystery_number == b.mystery_number,
{
    reveal(entry_placed);
    reveal(entry_read_at);
}

proof fn lemma_same_count(s: Seq<u8>, a: Seq<DatEntry>, b: Seq<DatEntry>)
    requires
        entries_read_from(a, s),
        entries_read_from(b, s),
    ensures
        a.len() == b.len(),
{
    let base = entries_base(s);
    let end = footer_start(s);
    if a.len() < b.len() {
        lemma_same_starts(s, a, b, base, end, a.len() as int);
        assert(entry_start(b, base, a.len() as int) < end && entry_placed(
            b[a.len() as int],
            s,
            entry_start(b, base, a.len() as int),
        ));
    } else if b.len() < a.len() {
        lemma_same_starts(s, a, b, base, end, b.len() as int);
        assert(entry_start(a, base, b.len() as int) < end && entry_placed(
            a[b.len() as int],
            s,
            entry_start(a, base, b.len() as int),
        ));
    }
}

proof fn lemma_same_starts(s: Seq<u8>, a: Seq<DatEntry>, b: Seq<DatEntry>, base: int, end: int, k: int)
    requires
        entries_placed(a, s, base, end),
        entries_placed(b, s, base, end),
        0 <= k <= a.len(),
        k <= b.len(),
    ensures
        entry_start(a, base, k) == entry_start(b, base, k),
    decreases k,
{
    if k > 0 {
        lemma_same_starts(s, a, b, base, end, k - 1);
        reveal(entry_placed);
        assert(entry_placed(a[k - 1], s, entry_start(a, base, k - 1)));
        assert(entry_placed(b[k - 1], s, entry_start(b, base, k - 1)));
    }
}

} // verus!
