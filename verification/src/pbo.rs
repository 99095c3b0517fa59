//! PBO archives, read from the bytes at the start of the file: the
//! NUL-terminated strings and 20-byte entry records of the header, the
//! `prefix` header extension, and where one entry's data lies.
//!
//! The reader works on `header`, the first bytes of the archive. The
//! header of an archive this module accepts lies within its first
//! [`MAX_PBO_HEADER_BYTES`] bytes plus one record, so the caller hands in
//! the first [`HEADER_WINDOW_BYTES`] bytes, or the whole file if it is
//! shorter; a read past the end of `header` fails as a read past the end of
//! the file would.
use crate::marker_icons::{
    normalize_path_chars, normalize_pbo_component, normalized_range, pbo_component_spec,
    MarkerIconError,
};
use crate::text::{ascii_lower_seq, chars_of, eq_ignore_ascii_case, eq_ignore_case, string_from_chars, to_ascii_lowercase};
use vstd::prelude::*;
use vstd::utf8::{decode_utf8, valid_utf8};

verus! {

broadcast use vstd::string::group_string_axioms;

/// Most entry records read from one archive header.
pub const MAX_PBO_ENTRIES: usize = 100_000;

/// Position in the header past which an archive is refused.
pub const MAX_PBO_HEADER_BYTES: u64 = 16_777_216;

/// How many bytes at the start of an archive hold everything the header
/// reader may look at: [`MAX_PBO_HEADER_BYTES`] plus room for one more
/// record.
pub const HEADER_WINDOW_BYTES: u64 = 16_785_408;

/// Largest entry whose data is extracted.
pub const MAX_ENTRY_BYTES: usize = 4_194_304;

/// Longest header-extension key, in bytes.
pub const HEADER_KEY_LIMIT: usize = 1024;

/// Longest header-extension value, in bytes.
pub const HEADER_VALUE_LIMIT: usize = 2048;

/// Longest entry name, in bytes.
pub const ENTRY_NAME_LIMIT: usize = 4096;

/// Size of the fixed part of an entry record.
pub const ENTRY_FIELDS_BYTES: usize = 20;

/// The MIME tag `sreV` of the version record that opens a header with
/// extensions.
pub open spec fn version_tag() -> Seq<u8> {
    seq![0x73u8, 0x72u8, 0x65u8, 0x56u8]
}

/// The MIME tag `srpC` of a compressed entry.
pub open spec fn compressed_tag() -> Seq<u8> {
    seq![0x73u8, 0x72u8, 0x70u8, 0x43u8]
}

/// The header-extension key `prefix`.
pub open spec fn prefix_key() -> Seq<char> {
    seq!['p', 'r', 'e', 'f', 'i', 'x']
}

/// `String::from_utf8`: the string whose UTF-8 encoding is `bytes`, if
/// `bytes` is valid UTF-8.
#[verifier::external_body]
fn utf8_string(bytes: Vec<u8>) -> (r: Option<String>)
    ensures
        r is Some <==> valid_utf8(bytes@),
        r matches Some(s) ==> s@ == decode_utf8(bytes@),
{
    String::from_utf8(bytes).ok()
}

// ---------------------------------------------------------------------------
// Strings and records
// ---------------------------------------------------------------------------

/// The byte at `k` is the first NUL at or after `pos`.
pub open spec fn first_nul_at(bytes: Seq<u8>, pos: int, k: int) -> bool {
    &&& pos <= k < bytes.len()
    &&& bytes[k] == 0
    &&& forall|j: int| pos <= j < k ==> bytes[j] != 0
}

/// `read_c_string`: the NUL-terminated UTF-8 string at `pos` whose
/// terminator lies within `limit + 1` bytes, and the position after the
/// terminator; `None` when there is no such terminator or the bytes are not
/// UTF-8.
pub open spec fn c_string_at(bytes: Seq<u8>, pos: int, limit: int) -> Option<(Seq<char>, int)> {
    if exists|k: int| first_nul_at(bytes, pos, k) && k <= pos + limit {
        let k = choose|k: int| first_nul_at(bytes, pos, k) && k <= pos + limit;
        let raw = bytes.subrange(pos, k);
        if valid_utf8(raw) {
            Some((decode_utf8(raw), k + 1))
        } else {
            None
        }
    } else {
        None
    }
}

proof fn lemma_first_nul_unique(bytes: Seq<u8>, pos: int, k1: int, k2: int)
    requires
        first_nul_at(bytes, pos, k1),
        first_nul_at(bytes, pos, k2),
    ensures
        k1 == k2,
{
    if k1 < k2 {
        assert(bytes[k1] != 0);
    } else if k2 < k1 {
        assert(bytes[k2] != 0);
    }
}

/// A string read moves past its terminator and stays within the bytes.
pub proof fn lemma_c_string_advances(bytes: Seq<u8>, pos: int, limit: int)
    requires
        0 <= pos,
        c_string_at(bytes, pos, limit) is Some,
    ensures
        pos < c_string_at(bytes, pos, limit).unwrap().1 <= bytes.len(),
        c_string_at(bytes, pos, limit).unwrap().0.len() == 0 <==> c_string_at(
            bytes,
            pos,
            limit,
        ).unwrap().1 == pos + 1,
{
    let k = choose|k: int| first_nul_at(bytes, pos, k) && k <= pos + limit;
    let raw = bytes.subrange(pos, k);
    assert(valid_utf8(raw));
    vstd::utf8::decode_utf8_encode_utf8(raw);
    if raw.len() == 0 {
        assert(decode_utf8(raw) =~= Seq::<char>::empty());
    } else if decode_utf8(raw).len() == 0 {
        assert(decode_utf8(raw) =~= Seq::<char>::empty());
        assert(vstd::utf8::encode_utf8(Seq::<char>::empty()) =~= Seq::<u8>::empty());
    }
}

/// `read_c_string`: reads the NUL-terminated string at `pos`, reading at
/// most `limit + 1` bytes; returns it with the position after its
/// terminator.
pub fn read_c_string(bytes: &[u8], pos: usize, limit: usize) -> (r: Result<
    (String, usize),
    MarkerIconError,
>)
    ensures
        r matches Ok((s, next)) ==> c_string_at(bytes@, pos as int, limit as int) == Some(
            (s@, next as int),
        ),
        r matches Err(e) ==> e == MarkerIconError::Unsupported && c_string_at(
            bytes@,
            pos as int,
            limit as int,
        ) is None,
{
    let mut raw: Vec<u8> = Vec::new();
    let mut i = pos;
    let mut count: usize = 0;
    while count <= limit
        invariant
            i == pos + count,
            count <= limit + 1,
            i <= bytes.len() ==> raw@ == bytes@.subrange(pos as int, i as int),
            forall|j: int| pos <= j < i ==> bytes@[j] != 0,
            pos <= bytes.len() || count == 0,
        decreases limit + 1 - count,
    {
        if i >= bytes.len() {
            proof {
                if exists|k: int| first_nul_at(bytes@, pos as int, k) && k <= pos + limit {
                    let k = choose|k: int| first_nul_at(bytes@, pos as int, k) && k <= pos + limit;
                    assert(bytes@[k] != 0);
                }
            }
            return Err(MarkerIconError::Unsupported);
        }
        let b = bytes[i];
        if b == 0 {
            let ghost k = i as int;
            proof {
                assert(first_nul_at(bytes@, pos as int, k));
                let c = choose|c: int| first_nul_at(bytes@, pos as int, c) && c <= pos + limit;
                lemma_first_nul_unique(bytes@, pos as int, k, c);
            }
            match utf8_string(raw) {
                Some(s) => {
                    return Ok((s, i + 1));
                },
                None => {
                    return Err(MarkerIconError::Unsupported);
                },
            }
        }
        raw.push(b);
        proof {
            assert(raw@ =~= bytes@.subrange(pos as int, i + 1));
        }
        i = i + 1;
        count = count + 1;
    }
    proof {
        if exists|k: int| first_nul_at(bytes@, pos as int, k) && k <= pos + limit {
            let k = choose|k: int| first_nul_at(bytes@, pos as int, k) && k <= pos + limit;
            assert(bytes@[k] != 0);
        }
    }
    Err(MarkerIconError::Unsupported)
}

/// The little-endian `u32` at `p`.
pub open spec fn le_u32_at(bytes: Seq<u8>, p: int) -> u32 {
    (bytes[p] as int + bytes[p + 1] as int * 256 + bytes[p + 2] as int * 65536 + bytes[p + 3] as int
        * 16777216) as u32
}

/// The fixed part of an entry record: the MIME tag, the original size, the
/// offset and time stamp fields, and the size of the stored data.
#[derive(Debug, Clone, Copy, PartialEq, Eq)]
pub struct EntryFields {
    pub mime: [u8; 4],
    pub original_size: u32,
    pub offset: u32,
    pub timestamp: u32,
    pub data_size: u32,
}

/// `fields` are the 20 bytes at `p`.
pub open spec fn fields_at(bytes: Seq<u8>, p: int, fields: EntryFields) -> bool {
    &&& fields.mime@ == bytes.subrange(p, p + 4)
    &&& fields.original_size == le_u32_at(bytes, p + 4)
    &&& fields.offset == le_u32_at(bytes, p + 8)
    &&& fields.timestamp == le_u32_at(bytes, p + 12)
    &&& fields.data_size == le_u32_at(bytes, p + 16)
}

fn le_u32(bytes: &[u8], p: usize) -> (r: u32)
    requires
        p + 4 <= bytes@.len(),
    ensures
        r == le_u32_at(bytes@, p as int),
{
    (bytes[p] as u32) + (bytes[p + 1] as u32) * 256 + (bytes[p + 2] as u32) * 65536 + (bytes[p
        + 3] as u32) * 16777216
}

/// `read_entry_fields`: the 20-byte fixed part of an entry record at
/// `pos`, and the position after it; refused when fewer than 20 bytes
/// remain.
pub fn read_entry_fields(bytes: &[u8], pos: usize) -> (r: Result<
    (EntryFields, usize),
    MarkerIconError,
>)
    ensures
        r matches Ok((fields, next)) ==> pos + 20 <= bytes@.len() && next == pos + 20 && fields_at(
            bytes@,
            pos as int,
            fields,
        ),
        r matches Err(e) ==> e == MarkerIconError::Unsupported && pos + 20 > bytes@.len(),
{
    if pos > bytes.len() || bytes.len() - pos < ENTRY_FIELDS_BYTES {
        return Err(MarkerIconError::Unsupported);
    }
    let mime = [bytes[pos], bytes[pos + 1], bytes[pos + 2], bytes[pos + 3]];
    let fields = EntryFields {
        mime,
        original_size: le_u32(bytes, pos + 4),
        offset: le_u32(bytes, pos + 8),
        timestamp: le_u32(bytes, pos + 12),
        data_size: le_u32(bytes, pos + 16),
    };
    assert(fields.mime@ =~= bytes@.subrange(pos as int, pos + 4));
    Ok((fields, pos + ENTRY_FIELDS_BYTES))
}

/// Whether a MIME tag is [`version_tag`].
fn is_version_tag(mime: &[u8; 4]) -> (r: bool)
    ensures
        r == (mime@ == version_tag()),
{
    let r = mime[0] == 0x73 && mime[1] == 0x72 && mime[2] == 0x65 && mime[3] == 0x56;
    proof {
        if r {
            assert(mime@ =~= version_tag());
        } else {
            assert(mime@[0] != 0x73 || mime@[1] != 0x72 || mime@[2] != 0x65 || mime@[3] != 0x56);
        }
    }
    r
}

/// Whether a MIME tag is [`compressed_tag`].
fn is_compressed_tag(mime: &[u8; 4]) -> (r: bool)
    ensures
        r == (mime@ == compressed_tag()),
{
    let r = mime[0] == 0x73 && mime[1] == 0x72 && mime[2] == 0x70 && mime[3] == 0x43;
    proof {
        if r {
            assert(mime@ =~= compressed_tag());
        } else {
            assert(mime@[0] != 0x73 || mime@[1] != 0x72 || mime@[2] != 0x70 || mime@[3] != 0x43);
        }
    }
    r
}

/// The characters of an optional string.
pub open spec fn opt_chars(s: Option<String>) -> Option<Seq<char>> {
    match s {
        Some(v) => Some(v@),
        None => None,
    }
}

// ---------------------------------------------------------------------------
// The `prefix` header extension
// ---------------------------------------------------------------------------

/// The key/value pairs of the header extension from `pos` on, up to the
/// empty key that ends them: `Some(prefix)`, where `prefix` is the
/// normalised value of the last `prefix` key (compared without regard to
/// ASCII case), or the `prefix` given for what came before. `None` when a
/// string cannot be read or a pair ends past [`MAX_PBO_HEADER_BYTES`].
pub open spec fn prefix_extension(bytes: Seq<u8>, pos: int, prefix: Option<Seq<char>>) -> Option<
    Option<Seq<char>>,
>
    decreases bytes.len() - pos,
{
    match c_string_at(bytes, pos, HEADER_KEY_LIMIT as int) {
        None => None,
        Some((key, after_key)) => if key.len() == 0 {
            Some(prefix)
        } else {
            match c_string_at(bytes, after_key, HEADER_VALUE_LIMIT as int) {
                None => None,
                Some((value, after_value)) => {
                    let next = if eq_ignore_ascii_case(key, prefix_key()) {
                        pbo_component_spec(value)
                    } else {
                        prefix
                    };
                    if after_value > MAX_PBO_HEADER_BYTES {
                        None
                    } else if pos < after_value <= bytes.len() {
                        // (a read always moves forward within the bytes)
                        prefix_extension(bytes, after_value, next)
                    } else {
                        None
                    }
                },
            }
        },
    }
}

/// `read_pbo_prefix` over the archive's first bytes: the normalised
/// `prefix` of an archive whose header opens with a version record, or the
/// lower-cased file stem of an archive without one.
pub open spec fn pbo_prefix_spec(bytes: Seq<u8>, file_stem: Option<Seq<char>>) -> Result<
    Seq<char>,
    MarkerIconError,
> {
    match c_string_at(bytes, 0, HEADER_KEY_LIMIT as int) {
        None => Err(MarkerIconError::Unsupported),
        Some((first, after_first)) => if after_first + 20 > bytes.len() {
            Err(MarkerIconError::Unsupported)
        } else if first.len() != 0 || bytes.subrange(after_first, after_first + 4)
            != version_tag() {
            match file_stem {
                Some(stem) => Ok(ascii_lower_seq(stem)),
                None => Err(MarkerIconError::Unsupported),
            }
        } else {
            match prefix_extension(bytes, after_first + 20, None) {
                Some(Some(prefix)) => Ok(prefix),
                _ => Err(MarkerIconError::Unsupported),
            }
        },
    }
}

fn scan_prefix_extension(bytes: &[u8], pos: usize) -> (r: Result<Option<String>, MarkerIconError>)
    requires
        pos <= bytes@.len(),
    ensures
        r matches Ok(prefix) ==> prefix_extension(bytes@, pos as int, None) == Some(
            opt_chars(prefix),
        ),
        r matches Err(e) ==> e == MarkerIconError::Unsupported && prefix_extension(
            bytes@,
            pos as int,
            None,
        ) is None,
{
    let mut prefix: Option<String> = None;
    let mut p = pos;
    loop
        invariant
            p <= bytes@.len(),
            prefix_extension(bytes@, p as int, opt_chars(prefix)) == prefix_extension(
                bytes@,
                pos as int,
                None,
            ),
        decreases bytes@.len() - p,
    {
        let ghost before = opt_chars(prefix);
        let ghost at = p as int;
        let (key, after_key) = match read_c_string(bytes, p, HEADER_KEY_LIMIT) {
            Ok(read) => read,
            Err(error) => return Err(error),
        };
        proof {
            lemma_c_string_advances(bytes@, p as int, HEADER_KEY_LIMIT as int);
        }
        if key.as_str().is_empty() {
            return Ok(prefix);
        }
        let (value, after_value) = match read_c_string(bytes, after_key, HEADER_VALUE_LIMIT) {
            Ok(read) => read,
            Err(error) => return Err(error),
        };
        proof {
            lemma_c_string_advances(bytes@, after_key as int, HEADER_VALUE_LIMIT as int);
            reveal_strlit("prefix");
            assert("prefix"@ =~= prefix_key());
        }
        if eq_ignore_case(key.as_str(), "prefix") {
            prefix = normalize_pbo_component(value.as_str());
        }
        if after_value as u64 > MAX_PBO_HEADER_BYTES {
            return Err(MarkerIconError::Unsupported);
        }
        proof {
            assert(opt_chars(prefix) == (if eq_ignore_ascii_case(key@, prefix_key()) {
                pbo_component_spec(value@)
            } else {
                before
            }));
            assert(prefix_extension(bytes@, at, before) == prefix_extension(
                bytes@,
                after_value as int,
                opt_chars(prefix),
            ));
        }
        p = after_value;
    }
}

/// `read_pbo_prefix`: the virtual-path prefix under which an archive's
/// entries lie. `header` holds the archive's first bytes and `file_stem`
/// the name of its file without extension, if that name is text.
pub fn read_pbo_prefix(header: &[u8], file_stem: Option<&str>) -> (r: Result<
    String,
    MarkerIconError,
>)
    ensures
        r matches Ok(prefix) ==> pbo_prefix_spec(
            header@,
            match file_stem {
                Some(stem) => Some(stem@),
                None => None,
            },
        ) == Ok::<Seq<char>, MarkerIconError>(prefix@),
        r matches Err(e) ==> pbo_prefix_spec(
            header@,
            match file_stem {
                Some(stem) => Some(stem@),
                None => None,
            },
        ) == Err::<Seq<char>, MarkerIconError>(e),
{
    let (first, after_first) = match read_c_string(header, 0, HEADER_KEY_LIMIT) {
        Ok(read) => read,
        Err(error) => return Err(error),
    };
    proof {
        lemma_c_string_advances(header@, 0, HEADER_KEY_LIMIT as int);
    }
    let (fields, after_fields) = match read_entry_fields(header, after_first) {
        Ok(read) => read,
        Err(error) => return Err(error),
    };
    if !first.as_str().is_empty() || !is_version_tag(&fields.mime) {
        return match file_stem {
            Some(stem) => Ok(to_ascii_lowercase(stem)),
            None => Err(MarkerIconError::Unsupported),
        };
    }
    match scan_prefix_extension(header, after_fields) {
        Ok(Some(prefix)) => Ok(prefix),
        Ok(None) => Err(MarkerIconError::Unsupported),
        Err(error) => Err(error),
    }
}

// ---------------------------------------------------------------------------
// Entry records and the location of an entry's data
// ---------------------------------------------------------------------------

/// An entry record of the header, as the locator compares it: the name
/// with `/` turned into `\` and ASCII letters lowered, the MIME tag, the
/// original size and the size of the stored data.
pub struct EntryHeader {
    pub name: Seq<char>,
    pub mime: Seq<u8>,
    pub original_size: u32,
    pub data_size: u32,
}

/// The header extension from `pos` on, skipped without looking at its
/// values: the position after the empty key that ends it.
pub open spec fn skip_extension(bytes: Seq<u8>, pos: int) -> Option<int>
    decreases bytes.len() - pos,
{
    match c_string_at(bytes, pos, HEADER_KEY_LIMIT as int) {
        None => None,
        Some((key, after_key)) => if key.len() == 0 {
            Some(after_key)
        } else {
            match c_string_at(bytes, after_key, HEADER_VALUE_LIMIT as int) {
                None => None,
                Some((_value, after_value)) => if pos < after_value <= bytes.len() {
                    skip_extension(bytes, after_value)
                } else {
                    None
                },
            }
        },
    }
}

/// The entry records from `pos` on, after the `count` records in `acc`:
/// records are read until one with an empty name, or until
/// [`MAX_PBO_ENTRIES`] have been read; the result holds them and the
/// position where the data begins. `None` when a record cannot be read or
/// one ends past [`MAX_PBO_HEADER_BYTES`].
pub open spec fn entry_records(bytes: Seq<u8>, pos: int, count: nat, acc: Seq<EntryHeader>) -> Option<
    (Seq<EntryHeader>, int),
>
    decreases MAX_PBO_ENTRIES - count,
{
    if count >= MAX_PBO_ENTRIES {
        Some((acc, pos))
    } else {
        match c_string_at(bytes, pos, ENTRY_NAME_LIMIT as int) {
            None => None,
            Some((name, after_name)) => if after_name + 20 > bytes.len() {
                None
            } else if name.len() == 0 {
                Some((acc, after_name + 20))
            } else if after_name + 20 > MAX_PBO_HEADER_BYTES {
                None
            } else {
                let record = EntryHeader {
                    name: normalize_path_chars(name),
                    mime: bytes.subrange(after_name, after_name + 4),
                    original_size: le_u32_at(bytes, after_name + 4),
                    data_size: le_u32_at(bytes, after_name + 16),
                };
                entry_records(bytes, after_name + 20, count + 1, acc.push(record))
            },
        }
    }
}

/// The entry records of a header and the position where the data begins.
/// A header opens with a record; with an empty name and the version tag it
/// is followed by the header extension, and otherwise it must be an empty
/// record with zero sizes.
pub open spec fn header_entries(bytes: Seq<u8>) -> Option<(Seq<EntryHeader>, int)> {
    match c_string_at(bytes, 0, HEADER_KEY_LIMIT as int) {
        None => None,
        Some((first, after_first)) => if after_first + 20 > bytes.len() {
            None
        } else if first.len() == 0 && bytes.subrange(after_first, after_first + 4)
            == version_tag() {
            match skip_extension(bytes, after_first + 20) {
                None => None,
                Some(start) => entry_records(bytes, start, 0, Seq::empty()),
            }
        } else if first.len() != 0 || le_u32_at(bytes, after_first + 4) != 0 || le_u32_at(
            bytes,
            after_first + 16,
        ) != 0 {
            None
        } else {
            entry_records(bytes, after_first + 20, 0, Seq::empty())
        },
    }
}

/// The data of the first entry named `requested` (without regard to ASCII
/// case), the data of the entries before it lying back to back from
/// `offset`: its offset and size. The entry must hold between 1 byte and
/// [`MAX_ENTRY_BYTES`], not be compressed, not be larger once unpacked, and
/// end within the file; `Unavailable` when no entry has the name.
pub open spec fn locate_entry(
    entries: Seq<EntryHeader>,
    offset: int,
    requested: Seq<char>,
    file_length: int,
) -> Result<(int, int), MarkerIconError>
    decreases entries.len(),
{
    if entries.len() == 0 {
        Err(MarkerIconError::Unavailable)
    } else {
        let entry = entries[0];
        if eq_ignore_ascii_case(entry.name, requested) {
            if entry.data_size == 0 || entry.data_size > MAX_ENTRY_BYTES || entry.mime
                == compressed_tag() || entry.original_size > entry.data_size {
                Err(MarkerIconError::Unsupported)
            } else if offset + entry.data_size > u64::MAX {
                Err(MarkerIconError::Unsupported)
            } else if offset + entry.data_size > file_length {
                Err(MarkerIconError::Unsupported)
            } else {
                Ok((offset, entry.data_size as int))
            }
        } else if offset + entry.data_size > u64::MAX {
            Err(MarkerIconError::Unsupported)
        } else {
            locate_entry(entries.drop_first(), offset + entry.data_size, requested, file_length)
        }
    }
}

/// The total data size of the first `k` entries.
pub open spec fn data_sizes_before(entries: Seq<EntryHeader>, k: int) -> int
    decreases entries.len(),
{
    if k <= 0 || entries.len() == 0 {
        0
    } else {
        entries[0].data_size + data_sizes_before(entries.drop_first(), k - 1)
    }
}

/// `k` is the first entry whose name is `requested` without regard to
/// ASCII case.
pub open spec fn is_first_named_entry(entries: Seq<EntryHeader>, requested: Seq<char>, k: int) -> bool {
    &&& 0 <= k < entries.len()
    &&& eq_ignore_ascii_case(entries[k].name, requested)
    &&& forall|m: int| 0 <= m < k ==> !eq_ignore_ascii_case(#[trigger] entries[m].name, requested)
}

/// Law (entry data lies back to back): an entry found from `offset` is the
/// first entry with the requested name; its data starts at `offset` plus
/// the data sizes of all entries before it, is as long as its data size and
/// ends within the file; and when no entry has the name, the entry is
/// unavailable.
pub proof fn law_located_entry_follows_earlier_data(
    entries: Seq<EntryHeader>,
    offset: int,
    requested: Seq<char>,
    file_length: int,
)
    ensures
        locate_entry(entries, offset, requested, file_length) matches Ok((o, size)) ==> exists|k: int|
            #[trigger] is_first_named_entry(entries, requested, k) && o == offset + data_sizes_before(
                entries,
                k,
            ) && size == entries[k].data_size && o + size <= file_length,
        (forall|m: int| 0 <= m < entries.len() ==> !eq_ignore_ascii_case(#[trigger] entries[m].name, requested))
            ==> locate_entry(entries, offset, requested, file_length) is Err,
    decreases entries.len(),
{
    if entries.len() > 0 {
        let rest = entries.drop_first();
        law_located_entry_follows_earlier_data(rest, offset + entries[0].data_size, requested, file_length);
        if eq_ignore_ascii_case(entries[0].name, requested) {
            if locate_entry(entries, offset, requested, file_length) is Ok {
                assert(is_first_named_entry(entries, requested, 0));
            }
        } else {
            if locate_entry(entries, offset, requested, file_length) is Ok {
                let (o, size) = locate_entry(entries, offset, requested, file_length)->Ok_0;
                let k = choose|k: int|
                    #[trigger] is_first_named_entry(rest, requested, k) && o == offset + entries[0].data_size
                        + data_sizes_before(rest, k) && size == rest[k].data_size && o + size <= file_length;
                assert forall|m: int| 0 <= m < k + 1 implies !eq_ignore_ascii_case(
                    #[trigger] entries[m].name,
                    requested,
                ) by {
                    if m > 0 {
                        assert(entries[m] == rest[m - 1]);
                    }
                }
                assert(is_first_named_entry(entries, requested, k + 1));
            }
            assert((forall|m: int| 0 <= m < entries.len() ==> !eq_ignore_ascii_case(#[trigger] entries[m].name, requested))
                ==> (forall|m: int| 0 <= m < rest.len() ==> !eq_ignore_ascii_case(#[trigger] rest[m].name, requested))) by {
                if forall|m: int| 0 <= m < entries.len() ==> !eq_ignore_ascii_case(#[trigger] entries[m].name, requested) {
                    assert forall|m: int| 0 <= m < rest.len() implies !eq_ignore_ascii_case(#[trigger] rest[m].name, requested) by {
                        assert(rest[m] == entries[m + 1]);
                    }
                }
            }
        }
    }
}

/// Law (an archive's entries lie back to back after its header): the entry
/// found in an archive is the first header entry with the requested name,
/// and its data starts where the header ends plus the data sizes of all
/// header entries before it.
pub proof fn law_pbo_entry_offset(bytes: Seq<u8>, file_length: int, requested: Seq<char>)
    ensures
        pbo_entry_spec(bytes, file_length, requested) matches Ok((o, size)) ==> header_entries(bytes) matches Some(
            (entries, start),
        ) && exists|k: int|
            #[trigger] is_first_named_entry(entries, requested, k) && o == start + data_sizes_before(entries, k)
                && size == entries[k].data_size,
{
    match header_entries(bytes) {
        Some((entries, start)) => {
            law_located_entry_follows_earlier_data(entries, start, requested, file_length);
        },
        None => {},
    }
}

/// Where the entry `requested` lies in an archive of `file_length` bytes
/// whose first bytes are `bytes`.
pub open spec fn pbo_entry_spec(bytes: Seq<u8>, file_length: int, requested: Seq<char>) -> Result<
    (int, int),
    MarkerIconError,
> {
    match header_entries(bytes) {
        None => Err(MarkerIconError::Unsupported),
        Some((entries, data_start)) => locate_entry(entries, data_start, requested, file_length),
    }
}

/// An entry record read from the header.
struct EntryRecord {
    name: String,
    mime: [u8; 4],
    original_size: u32,
    data_size: u32,
}

spec fn record_view(record: EntryRecord) -> EntryHeader {
    EntryHeader {
        name: record.name@,
        mime: record.mime@,
        original_size: record.original_size,
        data_size: record.data_size,
    }
}

spec fn records_view(records: Seq<EntryRecord>) -> Seq<EntryHeader> {
    records.map_values(|record: EntryRecord| record_view(record))
}

fn skip_header_extension(bytes: &[u8], pos: usize) -> (r: Result<usize, MarkerIconError>)
    requires
        pos <= bytes@.len(),
    ensures
        r matches Ok(end) ==> skip_extension(bytes@, pos as int) == Some(end as int) && end
            <= bytes@.len(),
        r matches Err(e) ==> e == MarkerIconError::Unsupported && skip_extension(
            bytes@,
            pos as int,
        ) is None,
{
    let mut p = pos;
    loop
        invariant
            p <= bytes@.len(),
            skip_extension(bytes@, p as int) == skip_extension(bytes@, pos as int),
        decreases bytes@.len() - p,
    {
        let (key, after_key) = match read_c_string(bytes, p, HEADER_KEY_LIMIT) {
            Ok(read) => read,
            Err(error) => return Err(error),
        };
        proof {
            lemma_c_string_advances(bytes@, p as int, HEADER_KEY_LIMIT as int);
        }
        if key.as_str().is_empty() {
            return Ok(after_key);
        }
        let (_value, after_value) = match read_c_string(bytes, after_key, HEADER_VALUE_LIMIT) {
            Ok(read) => read,
            Err(error) => return Err(error),
        };
        proof {
            lemma_c_string_advances(bytes@, after_key as int, HEADER_VALUE_LIMIT as int);
        }
        p = after_value;
    }
}

/// `name.replace('/', "\\").to_ascii_lowercase()`.
fn normalize_entry_name(name: &str) -> (r: String)
    ensures
        r@ == normalize_path_chars(name@),
{
    let chars = chars_of(name);
    let normalized = normalized_range(&chars, 0, chars.len());
    assert(chars@.subrange(0, chars@.len() as int) =~= chars@);
    string_from_chars(&normalized)
}

fn read_entry_records(bytes: &[u8], pos: usize) -> (r: Result<
    (Vec<EntryRecord>, usize),
    MarkerIconError,
>)
    requires
        pos <= bytes@.len(),
    ensures
        r matches Ok((records, end)) ==> entry_records(bytes@, pos as int, 0, Seq::empty()) == Some(
            (records_view(records@), end as int),
        ),
        r matches Err(e) ==> e == MarkerIconError::Unsupported && entry_records(
            bytes@,
            pos as int,
            0,
            Seq::empty(),
        ) is None,
{
    let mut records: Vec<EntryRecord> = Vec::new();
    let mut p = pos;
    let mut count: usize = 0;
    proof {
        assert(records_view(records@) =~= Seq::<EntryHeader>::empty());
    }
    while count < MAX_PBO_ENTRIES
        invariant
            p <= bytes@.len(),
            count <= MAX_PBO_ENTRIES,
            entry_records(bytes@, p as int, count as nat, records_view(records@)) == entry_records(
                bytes@,
                pos as int,
                0,
                Seq::empty(),
            ),
        decreases MAX_PBO_ENTRIES - count,
    {
        let ghost acc = records_view(records@);
        let ghost at = p as int;
        let (name, after_name) = match read_c_string(bytes, p, ENTRY_NAME_LIMIT) {
            Ok(read) => read,
            Err(error) => return Err(error),
        };
        proof {
            lemma_c_string_advances(bytes@, p as int, ENTRY_NAME_LIMIT as int);
        }
        let (fields, after_fields) = match read_entry_fields(bytes, after_name) {
            Ok(read) => read,
            Err(error) => return Err(error),
        };
        if name.as_str().is_empty() {
            return Ok((records, after_fields));
        }
        if after_fields as u64 > MAX_PBO_HEADER_BYTES {
            return Err(MarkerIconError::Unsupported);
        }
        let record = EntryRecord {
            name: normalize_entry_name(name.as_str()),
            mime: fields.mime,
            original_size: fields.original_size,
            data_size: fields.data_size,
        };
        records.push(record);
        proof {
            let header = EntryHeader {
                name: normalize_path_chars(name@),
                mime: bytes@.subrange(after_name as int, after_name + 4),
                original_size: le_u32_at(bytes@, after_name + 4),
                data_size: le_u32_at(bytes@, after_name + 16),
            };
            assert(records_view(records@) =~= acc.push(header));
            assert(entry_records(bytes@, at, count as nat, acc) == entry_records(
                bytes@,
                after_fields as int,
                (count + 1) as nat,
                acc.push(header),
            ));
        }
        p = after_fields;
        count = count + 1;
    }
    Ok((records, p))
}

fn header_records(bytes: &[u8]) -> (r: Result<(Vec<EntryRecord>, usize), MarkerIconError>)
    ensures
        r matches Ok((records, end)) ==> header_entries(bytes@) == Some(
            (records_view(records@), end as int),
        ),
        r matches Err(e) ==> e == MarkerIconError::Unsupported && header_entries(bytes@) is None,
{
    let (first, after_first) = match read_c_string(bytes, 0, HEADER_KEY_LIMIT) {
        Ok(read) => read,
        Err(error) => return Err(error),
    };
    proof {
        lemma_c_string_advances(bytes@, 0, HEADER_KEY_LIMIT as int);
    }
    let (fields, after_fields) = match read_entry_fields(bytes, after_first) {
        Ok(read) => read,
        Err(error) => return Err(error),
    };
    let unnamed = first.as_str().is_empty();
    if unnamed && is_version_tag(&fields.mime) {
        let start = match skip_header_extension(bytes, after_fields) {
            Ok(start) => start,
            Err(error) => return Err(error),
        };
        read_entry_records(bytes, start)
    } else if !unnamed || fields.original_size != 0 || fields.data_size != 0 {
        Err(MarkerIconError::Unsupported)
    } else {
        read_entry_records(bytes, after_fields)
    }
}

/// Where an entry's data lies in its archive.
#[derive(Debug, Clone, Copy, PartialEq, Eq)]
pub struct PboEntry {
    pub offset: u64,
    pub size: usize,
}

fn find_entry(records: &Vec<EntryRecord>, data_start: u64, requested: &str, file_length: u64) -> (r:
    Result<PboEntry, MarkerIconError>)
    ensures
        r matches Ok(entry) ==> locate_entry(
            records_view(records@),
            data_start as int,
            requested@,
            file_length as int,
        ) == Ok::<(int, int), MarkerIconError>((entry.offset as int, entry.size as int)),
        r matches Err(e) ==> locate_entry(
            records_view(records@),
            data_start as int,
            requested@,
            file_length as int,
        ) == Err::<(int, int), MarkerIconError>(e),
{
    let ghost all = records_view(records@);
    let mut offset = data_start;
    let mut i: usize = 0;
    assert(all.skip(0) =~= all);
    while i < records.len()
        invariant
            i <= records.len(),
            all == records_view(records@),
            locate_entry(all.skip(i as int), offset as int, requested@, file_length as int)
                == locate_entry(all, data_start as int, requested@, file_length as int),
        decreases records.len() - i,
    {
        let record = &records[i];
        let ghost rest = all.skip(i as int);
        assert(rest[0] == record_view(*record));
        if eq_ignore_case(record.name.as_str(), requested) {
            let size = record.data_size as usize;
            if size == 0 || size > MAX_ENTRY_BYTES || is_compressed_tag(&record.mime)
                || record.original_size > record.data_size {
                return Err(MarkerIconError::Unsupported);
            }
            let end = match offset.checked_add(record.data_size as u64) {
                Some(end) => end,
                None => return Err(MarkerIconError::Unsupported),
            };
            if end > file_length {
                return Err(MarkerIconError::Unsupported);
            }
            return Ok(PboEntry { offset, size });
        }
        offset = match offset.checked_add(record.data_size as u64) {
            Some(next) => next,
            None => return Err(MarkerIconError::Unsupported),
        };
        proof {
            assert(all.skip(i + 1) =~= rest.drop_first());
        }
        i = i + 1;
    }
    Err(MarkerIconError::Unavailable)
}

/// `extract_pbo_entry`, less the reading of the data: where the entry
/// `requested` lies in an archive of `file_length` bytes whose first bytes
/// are `header` (see the module documentation).
pub fn locate_pbo_entry(header: &[u8], file_length: u64, requested: &str) -> (r: Result<
    PboEntry,
    MarkerIconError,
>)
    ensures
        r matches Ok(entry) ==> pbo_entry_spec(header@, file_length as int, requested@) == Ok::<
            (int, int),
            MarkerIconError,
        >((entry.offset as int, entry.size as int)),
        r matches Err(e) ==> pbo_entry_spec(header@, file_length as int, requested@) == Err::<
            (int, int),
            MarkerIconError,
        >(e),
{
    let (records, data_start) = match header_records(header) {
        Ok(found) => found,
        Err(error) => return Err(error),
    };
    find_entry(&records, data_start as u64, requested, file_length)
}

} // verus!
