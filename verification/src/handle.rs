//! The archive reader: opens a backing byte source, drives the header codec
//! in a loop to build the property table and the file directory, locates the
//! data blob, validates the trailing checksum's position, and exposes
//! offset-based extraction of a member's bytes.

use crate::codec::{
    bytes_eq, null_pos, read_bytes, read_header, read_null_string, spec_read_header, BinaryHeader,
    Mime, SpecHeader,
};
use crate::error::{HeaderError, PboError};
use vstd::map::*;
use vstd::prelude::*;
use vstd::string::StringSliceAdditionalSpecFns;

verus! {

/// Number of bytes of the fixed-size checksum trailer that ends an archive.
pub const CHECKSUM_LEN: usize = 20;

/// The mathematical value of an open archive handle.
pub struct SpecArchive {
    /// The backing byte source, in full.
    pub source: Seq<u8>,
    /// The shared read cursor into the source.
    pub cursor: int,
    /// The property table; on a duplicate key the last write wins.
    pub properties: Map<Seq<u8>, Seq<u8>>,
    /// The version header that opens the archive.
    pub version_header: SpecHeader,
    /// The file directory in archive order, without the terminator record.
    pub files: Seq<SpecHeader>,
    /// The raw bytes of the checksum trailer.
    pub checksum: Seq<u8>,
    /// Offset of the data blob in the source.
    pub blob_start: int,
    /// Total length of the source.
    pub length: int,
}

/// The directory a list of decoded header records denotes.
pub open spec fn dir_view(files: Seq<BinaryHeader>) -> Seq<SpecHeader> {
    files.map_values(|h: BinaryHeader| h@)
}

/// The property table a list of decoded pairs denotes: a later pair
/// overrides an earlier one with the same key.
pub open spec fn props_view(pairs: Seq<(Vec<u8>, Vec<u8>)>) -> Map<Seq<u8>, Seq<u8>>
    decreases pairs.len(),
{
    if pairs.len() == 0 {
        Map::empty()
    } else {
        props_view(pairs.drop_last()).insert(pairs.last().0@, pairs.last().1@)
    }
}

/// The mathematical parse of the property table at `pos`: the table and the
/// position just past the empty key that terminates it, or `None` when the
/// stream ends before that empty key appears.
#[verifier::opaque]
pub open spec fn spec_props(s: Seq<u8>, pos: int) -> Option<(Map<Seq<u8>, Seq<u8>>, int)>
    recommends
        0 <= pos <= s.len(),
    decreases s.len() - pos,
    via spec_props_decreases
{
    let kq = null_pos(s, pos);
    if pos < 0 || kq >= s.len() {
        None
    } else if kq == pos {
        Some((Map::<Seq<u8>, Seq<u8>>::empty(), pos + 1))
    } else {
        let vq = null_pos(s, kq + 1);
        if vq >= s.len() {
            None
        } else {
            match spec_props(s, vq + 1) {
                None => None,
                Some(rest) => Some(
                    (
                        map![s.subrange(pos, kq) => s.subrange(kq + 1, vq)].union_prefer_right(
                            rest.0,
                        ),
                        rest.1,
                    ),
                ),
            }
        }
    }
}

#[via_fn]
proof fn spec_props_decreases(s: Seq<u8>, pos: int) {
    if 0 <= pos <= s.len() {
        crate::codec::lemma_null_pos(s, pos);
        let kq = null_pos(s, pos);
        if pos < kq < s.len() {
            crate::codec::lemma_null_pos(s, kq + 1);
        }
    }
}

/// A decoded header record ends strictly later than it starts and within
/// the stream.
pub proof fn lemma_read_header_bounds(s: Seq<u8>, pos: int)
    requires
        0 <= pos <= s.len(),
        spec_read_header(s, pos) is Ok,
    ensures
        pos + 21 <= spec_read_header(s, pos)->Ok_0.1 <= s.len(),
{
    if pos + 4 <= s.len() {
        crate::codec::lemma_null_pos(s, pos + 4);
    }
}

/// The mathematical parse of the file directory at `pos`: the entries in
/// order (without the empty-filename sentinel that terminates them) and the
/// position just past the sentinel — the data blob's start. A failure is
/// already mapped to the archive-level error: an unknown mime code is a
/// malformed header, while any truncation means the stream ended before the
/// sentinel.
#[verifier::opaque]
pub open spec fn spec_dir(s: Seq<u8>, pos: int) -> Result<(Seq<SpecHeader>, int), PboError>
    recommends
        0 <= pos <= s.len(),
    decreases s.len() - pos,
    via spec_dir_decreases
{
    if pos < 0 || pos > s.len() {
        Err(PboError::UnterminatedDirectory)
    } else {
        match spec_read_header(s, pos) {
            Err(HeaderError::UnknownMime) => Err(PboError::MalformedHeader),
            Err(_) => Err(PboError::UnterminatedDirectory),
            Ok(rec) => {
                if rec.0.filename.len() == 0 {
                    Ok((Seq::empty(), rec.1))
                } else {
                    match spec_dir(s, rec.1) {
                        Err(e) => Err(e),
                        Ok(rest) => Ok((seq![rec.0] + rest.0, rest.1)),
                    }
                }
            },
        }
    }
}

#[via_fn]
proof fn spec_dir_decreases(s: Seq<u8>, pos: int) {
    if 0 <= pos <= s.len() && spec_read_header(s, pos) is Ok {
        lemma_read_header_bounds(s, pos);
    }
}

/// The property table cannot be parsed when the stream ends inside a key.
proof fn lemma_props_none_key(s: Seq<u8>, pos: int)
    requires
        0 <= pos <= s.len(),
        null_pos(s, pos) == s.len(),
    ensures
        spec_props(s, pos) is None,
{
    reveal(spec_props);
}

/// An empty key at `pos` terminates the property table at once, whatever
/// bytes follow it.
pub proof fn lemma_props_terminator(s: Seq<u8>, pos: int)
    requires
        0 <= pos < s.len(),
        null_pos(s, pos) == pos,
    ensures
        spec_props(s, pos) == Some((Map::<Seq<u8>, Seq<u8>>::empty(), pos + 1)),
{
    reveal(spec_props);
}

/// The property table cannot be parsed when the stream ends inside a value.
proof fn lemma_props_none_value(s: Seq<u8>, pos: int)
    requires
        0 <= pos < null_pos(s, pos) < s.len(),
        null_pos(s, null_pos(s, pos) + 1) == s.len(),
    ensures
        spec_props(s, pos) is None,
{
    reveal(spec_props);
}

/// One parsed key/value pair prepends to the table of the rest of the
/// stream, the rest winning on a duplicate key.
proof fn lemma_props_step(s: Seq<u8>, pos: int)
    requires
        0 <= pos < null_pos(s, pos) < s.len(),
        null_pos(s, null_pos(s, pos) + 1) < s.len(),
    ensures
        ({
            let kq = null_pos(s, pos);
            let vq = null_pos(s, kq + 1);
            spec_props(s, pos) == match spec_props(s, vq + 1) {
                None => None::<(Map<Seq<u8>, Seq<u8>>, int)>,
                Some(t) => Some(
                    (
                        map![s.subrange(pos, kq) => s.subrange(kq + 1, vq)].union_prefer_right(
                            t.0,
                        ),
                        t.1,
                    ),
                ),
            }
        }),
{
    reveal(spec_props);
}

/// Folding a singleton into the right of a union is an insert on the left.
proof fn lemma_union_insert(b: Map<Seq<u8>, Seq<u8>>, k: Seq<u8>, v: Seq<u8>, t: Map<Seq<u8>, Seq<u8>>)
    ensures
        b.union_prefer_right(map![k => v].union_prefer_right(t)) == b.insert(
            k,
            v,
        ).union_prefer_right(t),
{
    assert(b.union_prefer_right(map![k => v].union_prefer_right(t)) =~= b.insert(
        k,
        v,
    ).union_prefer_right(t));
}

/// The empty table extends a built table by nothing.
proof fn lemma_union_empty(b: Map<Seq<u8>, Seq<u8>>)
    ensures
        b.union_prefer_right(Map::<Seq<u8>, Seq<u8>>::empty()) == b,
{
    assert(b.union_prefer_right(Map::<Seq<u8>, Seq<u8>>::empty()) =~= b);
}

/// Appending a pair to the list inserts it over the table built so far.
proof fn lemma_props_view_push(pairs: Seq<(Vec<u8>, Vec<u8>)>, k: Vec<u8>, v: Vec<u8>)
    ensures
        props_view(pairs.push((k, v))) == props_view(pairs).insert(k@, v@),
{
    assert(pairs.push((k, v)).drop_last() =~= pairs);
}

/// A failed header decode ends the directory parse with the matching error.
proof fn lemma_dir_read_err(s: Seq<u8>, pos: int)
    requires
        0 <= pos <= s.len(),
        spec_read_header(s, pos) is Err,
    ensures
        spec_dir(s, pos) == (if spec_read_header(s, pos)->Err_0 == HeaderError::UnknownMime {
            Err::<(Seq<SpecHeader>, int), PboError>(PboError::MalformedHeader)
        } else {
            Err::<(Seq<SpecHeader>, int), PboError>(PboError::UnterminatedDirectory)
        }),
{
    reveal(spec_dir);
}

/// An empty-filename record terminates the directory without being stored;
/// the bytes just past it are the blob start.
pub proof fn lemma_dir_sentinel(s: Seq<u8>, pos: int)
    requires
        0 <= pos <= s.len(),
        spec_read_header(s, pos) is Ok,
        spec_read_header(s, pos)->Ok_0.0.filename.len() == 0,
    ensures
        spec_dir(s, pos) == Ok::<(Seq<SpecHeader>, int), PboError>(
            (Seq::empty(), spec_read_header(s, pos)->Ok_0.1),
        ),
{
    reveal(spec_dir);
}

/// One parsed entry prepends to the directory of the rest of the stream.
proof fn lemma_dir_step(s: Seq<u8>, pos: int)
    requires
        0 <= pos <= s.len(),
        spec_read_header(s, pos) is Ok,
        spec_read_header(s, pos)->Ok_0.0.filename.len() != 0,
    ensures
        ({
            let rec = spec_read_header(s, pos)->Ok_0;
            spec_dir(s, pos) == match spec_dir(s, rec.1) {
                Err(e) => Err::<(Seq<SpecHeader>, int), PboError>(e),
                Ok(t) => Ok::<(Seq<SpecHeader>, int), PboError>((seq![rec.0] + t.0, t.1)),
            }
        }),
{
    reveal(spec_dir);
}

/// Concatenating a singleton-headed tail appends the head to the front part.
proof fn lemma_seq_push_concat(b: Seq<SpecHeader>, h: SpecHeader, t: Seq<SpecHeader>)
    ensures
        b + (seq![h] + t) == b.push(h) + t,
{
    assert(b + (seq![h] + t) =~= b.push(h) + t);
}

/// The empty tail extends a directory by nothing.
proof fn lemma_seq_concat_empty(b: Seq<SpecHeader>)
    ensures
        b + Seq::<SpecHeader>::empty() == b,
{
    assert(b + Seq::<SpecHeader>::empty() =~= b);
}

/// Appending a record to the list appends its value to the directory view.
proof fn lemma_dir_view_push(files: Seq<BinaryHeader>, h: BinaryHeader)
    ensures
        dir_view(files.push(h)) == dir_view(files).push(h@),
{
    assert(dir_view(files.push(h)) =~= dir_view(files).push(h@));
}

/// Sum of the size fields of the first `n` directory entries.
pub open spec fn sum_sizes(files: Seq<SpecHeader>, n: int) -> int
    decreases n,
{
    if n <= 0 {
        0
    } else {
        sum_sizes(files, n - 1) + files[n - 1].size
    }
}

/// A prefix sum of sizes is never negative.
pub proof fn lemma_sum_sizes_nonneg(files: Seq<SpecHeader>, n: int)
    ensures
        0 <= sum_sizes(files, n),
    decreases n,
{
    if n > 0 {
        lemma_sum_sizes_nonneg(files, n - 1);
    }
}

/// Prefix sums of sizes grow with the prefix.
pub proof fn lemma_sum_sizes_monotonic(files: Seq<SpecHeader>, i: int, j: int)
    requires
        i <= j,
    ensures
        sum_sizes(files, i) <= sum_sizes(files, j),
    decreases j - i,
{
    if i < j {
        lemma_sum_sizes_monotonic(files, i, j - 1);
    }
}

/// The index of the first directory entry whose filename equals `name`,
/// scanning from `i`; `files.len()` when there is none.
pub open spec fn find_from(files: Seq<SpecHeader>, name: Seq<u8>, i: int) -> int
    recommends
        0 <= i <= files.len(),
    decreases files.len() - i,
{
    if i < 0 || i >= files.len() {
        files.len() as int
    } else if files[i].filename == name {
        i
    } else {
        find_from(files, name, i + 1)
    }
}

/// `find_from` returns the first match at or after `i`, or the directory's
/// length when no entry at or after `i` matches.
pub proof fn lemma_find_from(files: Seq<SpecHeader>, name: Seq<u8>, i: int)
    requires
        0 <= i <= files.len(),
    ensures
        i <= find_from(files, name, i) <= files.len(),
        find_from(files, name, i) < files.len() ==> files[find_from(
            files,
            name,
            i,
        )].filename == name,
        forall|j: int| i <= j < find_from(files, name, i) ==> files[j].filename != name,
    decreases files.len() - i,
{
    if i < files.len() && files[i].filename != name {
        lemma_find_from(files, name, i + 1);
    }
}

/// The mathematical parse of a whole archive: the fully populated handle
/// value, or the error `open_file` raises on this source. The stream must
/// hold, in order: one version header, the property table, the file
/// directory, the data blob whose size is the sum of the directory's size
/// fields, one separator byte, and the fixed-size checksum trailer — and
/// nothing after it.
pub open spec fn spec_open(s: Seq<u8>) -> Result<SpecArchive, PboError> {
    match spec_read_header(s, 0) {
        Err(HeaderError::UnterminatedName) => Err(PboError::UnterminatedString),
        Err(_) => Err(PboError::MalformedHeader),
        Ok(ver) => {
            if ver.0.mime != Mime::Vers {
                Err(PboError::InvalidVersionMarker)
            } else {
                match spec_props(s, ver.1) {
                    None => Err(PboError::UnterminatedPropertyTable),
                    Some(props) => {
                        match spec_dir(s, props.1) {
                            Err(e) => Err(e),
                            Ok(dir) => {
                                let total = sum_sizes(dir.0, dir.0.len() as int);
                                if dir.1 + total + 1 + CHECKSUM_LEN > s.len() {
                                    Err(PboError::TruncatedArchive)
                                } else if dir.1 + total + 1 + CHECKSUM_LEN < s.len() {
                                    Err(PboError::TrailingData)
                                } else {
                                    Ok(
                                        SpecArchive {
                                            source: s,
                                            cursor: s.len() as int,
                                            properties: props.0,
                                            version_header: ver.0,
                                            files: dir.0,
                                            checksum: s.subrange(
                                                s.len() - CHECKSUM_LEN,
                                                s.len() as int,
                                            ),
                                            blob_start: dir.1,
                                            length: s.len() as int,
                                        },
                                    )
                                }
                            },
                        }
                    },
                }
            }
        },
    }
}

/// The bytes `get_file_content` yields for `name`, or the error it raises:
/// the member is the first directory entry whose filename equals `name`
/// byte for byte, and its bytes stand in the blob after the sizes of every
/// entry before it.
pub open spec fn spec_extract(a: SpecArchive, name: Seq<u8>) -> Result<Seq<u8>, PboError> {
    let i = find_from(a.files, name, 0);
    if i == a.files.len() {
        Err(PboError::MemberNotFound)
    } else {
        let off = a.blob_start + sum_sizes(a.files, i);
        Ok(a.source.subrange(off, off + a.files[i].size))
    }
}

/// An open archive handle. It owns the backing byte source exclusively and
/// caches the property table, the version header, the file directory, the
/// checksum trailer, the data blob's start offset and the source's total
/// length. Extraction repositions the shared read cursor but never mutates
/// the cached tables.
pub struct PBOHandle {
    source: Vec<u8>,
    cursor: usize,
    properties: Vec<(Vec<u8>, Vec<u8>)>,
    version_header: BinaryHeader,
    files: Vec<BinaryHeader>,
    checksum: Vec<u8>,
    blob_start: usize,
    length: usize,
}

impl View for PBOHandle {
    type V = SpecArchive;

    closed spec fn view(&self) -> SpecArchive {
        SpecArchive {
            source: self.source@,
            cursor: self.cursor as int,
            properties: props_view(self.properties@),
            version_header: self.version_header@,
            files: dir_view(self.files@),
            checksum: self.checksum@,
            blob_start: self.blob_start as int,
            length: self.length as int,
        }
    }
}

impl PBOHandle {
    /// A handle is well formed when its cached tables are exactly what the
    /// full parse of its backing source yields, and its cursor lies within
    /// the source. `open_file` establishes this and extraction preserves it.
    pub open spec fn wf(self) -> bool {
        &&& spec_open(self@.source) is Ok
        &&& self@ == SpecArchive { cursor: self@.cursor, ..spec_open(self@.source)->Ok_0 }
        &&& 0 <= self@.cursor <= self@.source.len()
    }

    /// Opens an archive over the given byte source: parses the version
    /// header, the property table, the file directory and the checksum
    /// trailer, and validates that the source holds exactly that structure
    /// and nothing more. The result — the populated handle or the error
    /// raised — is exactly what [`spec_open`] gives for the source.
    pub fn open_file(source: Vec<u8>) -> (r: Result<PBOHandle, PboError>)
        ensures
            match r {
                Ok(handle) => {
                    &&& spec_open(source@) == Ok::<SpecArchive, PboError>(handle@)
                    &&& handle.wf()
                },
                Err(e) => spec_open(source@) == Err::<SpecArchive, PboError>(e),
            },
    {
        let ghost s = source@;
        let len = source.len();

        // The very first record must be a version header.
        let (version_header, after_version) = match read_header(&source, 0) {
            Ok(p) => p,
            Err(HeaderError::UnterminatedName) => {
                return Err(PboError::UnterminatedString);
            },
            Err(_) => {
                return Err(PboError::MalformedHeader);
            },
        };
        if version_header.mime != Mime::Vers {
            return Err(PboError::InvalidVersionMarker);
        }

        // Key/value pairs until an empty key terminates the table.
        let mut properties: Vec<(Vec<u8>, Vec<u8>)> = Vec::new();
        let mut pos = after_version;
        loop
            invariant_except_break
                match spec_props(s, pos as int) {
                    None => spec_props(s, after_version as int) is None,
                    Some(tail) => spec_props(s, after_version as int) == Some(
                        (props_view(properties@).union_prefer_right(tail.0), tail.1),
                    ),
                },
            invariant
                s == source@,
                len == source@.len(),
                spec_read_header(s, 0) == Ok::<(SpecHeader, int), HeaderError>(
                    (version_header@, after_version as int),
                ),
                version_header@.mime == Mime::Vers,
                after_version <= pos <= len,
            ensures
                spec_props(s, after_version as int) == Some(
                    (props_view(properties@), pos as int),
                ),
            decreases len - pos,
        {
            let (key, key_end) = match read_null_string(&source, pos) {
                Ok(p) => p,
                Err(_) => {
                    proof {
                        lemma_props_none_key(s, pos as int);
                    }
                    return Err(PboError::UnterminatedPropertyTable);
                },
            };
            if key.len() == 0 {
                proof {
                    lemma_props_terminator(s, pos as int);
                    lemma_union_empty(props_view(properties@));
                }
                pos = key_end;
                break ;
            }
            let (value, value_end) = match read_null_string(&source, key_end) {
                Ok(p) => p,
                Err(_) => {
                    proof {
                        lemma_props_none_value(s, pos as int);
                    }
                    return Err(PboError::UnterminatedPropertyTable);
                },
            };
            proof {
                let kq = null_pos(s, pos as int);
                let vq = null_pos(s, kq + 1);
                lemma_props_step(s, pos as int);
                lemma_props_view_push(properties@, key, value);
                if spec_props(s, vq + 1) is Some {
                    let tail = spec_props(s, vq + 1)->Some_0;
                    lemma_union_insert(props_view(properties@), key@, value@, tail.0);
                }
            }
            properties.push((key, value));
            pos = value_end;
        }
        let after_props = pos;

        // Directory entries until an empty-filename sentinel, which is
        // discarded; the blob starts at the very next byte.
        let mut files: Vec<BinaryHeader> = Vec::new();
        loop
            invariant_except_break
                match spec_dir(s, pos as int) {
                    Err(e) => spec_dir(s, after_props as int) == Err::<
                        (Seq<SpecHeader>, int),
                        PboError,
                    >(e),
                    Ok(tail) => spec_dir(s, after_props as int) == Ok::<
                        (Seq<SpecHeader>, int),
                        PboError,
                    >((dir_view(files@) + tail.0, tail.1)),
                },
            invariant
                s == source@,
                len == source@.len(),
                spec_read_header(s, 0) == Ok::<(SpecHeader, int), HeaderError>(
                    (version_header@, after_version as int),
                ),
                version_header@.mime == Mime::Vers,
                spec_props(s, after_version as int) == Some(
                    (props_view(properties@), after_props as int),
                ),
                after_props <= pos <= len,
            ensures
                spec_dir(s, after_props as int) == Ok::<(Seq<SpecHeader>, int), PboError>(
                    (dir_view(files@), pos as int),
                ),
            decreases len - pos,
        {
            let (header, end) = match read_header(&source, pos) {
                Ok(p) => p,
                Err(HeaderError::UnknownMime) => {
                    proof {
                        lemma_dir_read_err(s, pos as int);
                    }
                    return Err(PboError::MalformedHeader);
                },
                Err(_) => {
                    proof {
                        lemma_dir_read_err(s, pos as int);
                    }
                    return Err(PboError::UnterminatedDirectory);
                },
            };
            if header.filename.len() == 0 {
                proof {
                    lemma_dir_sentinel(s, pos as int);
                    lemma_seq_concat_empty(dir_view(files@));
                }
                pos = end;
                break ;
            }
            proof {
                lemma_dir_step(s, pos as int);
                lemma_dir_view_push(files@, header);
                if spec_dir(s, end as int) is Ok {
                    let tail = spec_dir(s, end as int)->Ok_0;
                    lemma_seq_push_concat(dir_view(files@), header@, tail.0);
                }
            }
            files.push(header);
            pos = end;
        }
        let blob_start = pos;

        // The blob's total size is the widening sum of the directory's size
        // fields; the source must hold it, one separator byte and the
        // checksum trailer — exactly.
        let avail = (len - blob_start) as u64;
        let blob_size = match blob_size_within(&files, avail) {
            Some(t) => t,
            None => {
                return Err(PboError::TruncatedArchive);
            },
        };
        let rest = avail - blob_size;
        if rest < CHECKSUM_LEN as u64 + 1 {
            return Err(PboError::TruncatedArchive);
        }
        if rest > CHECKSUM_LEN as u64 + 1 {
            return Err(PboError::TrailingData);
        }

        // Read the fixed-size checksum record just past the separator byte.
        let ck_start = blob_start + blob_size as usize + 1;
        let checksum = read_bytes(&source, ck_start, CHECKSUM_LEN);
        proof {
            assert(checksum@ =~= s.subrange(s.len() - CHECKSUM_LEN, s.len() as int));
        }

        let handle = PBOHandle {
            source,
            cursor: len,
            properties,
            version_header,
            files,
            checksum,
            blob_start,
            length: len,
        };
        proof {
            assert(spec_open(s) == Ok::<SpecArchive, PboError>(handle@));
        }
        Ok(handle)
    }

    /// Extracts the bytes of the member named `filename`: the first
    /// directory entry whose filename matches byte for byte. Its offset is
    /// recomputed as the sum of the sizes of every entry before it, the
    /// shared cursor is repositioned there, and exactly `size` bytes are
    /// read into a fresh buffer. Fails with `MemberNotFound`, leaving the
    /// handle untouched, exactly when no entry matches.
    pub fn get_file_content(&mut self, filename: &str) -> (r: Result<Vec<u8>, PboError>)
        requires
            old(self).wf(),
        ensures
            final(self).wf(),
            final(self)@ == (SpecArchive { cursor: final(self)@.cursor, ..old(self)@ }),
            match r {
                Ok(data) => {
                    &&& spec_extract(old(self)@, filename.spec_bytes()) == Ok::<Seq<u8>, PboError>(
                        data@,
                    )
                    &&& ({
                        let i = find_from(old(self)@.files, filename.spec_bytes(), 0);
                        &&& data@.len() == old(self)@.files[i].size
                        &&& final(self)@.cursor == old(self)@.blob_start + sum_sizes(
                            old(self)@.files,
                            i,
                        ) + old(self)@.files[i].size
                    })
                },
                Err(e) => {
                    &&& spec_extract(old(self)@, filename.spec_bytes()) == Err::<Seq<u8>, PboError>(
                        e,
                    )
                    &&& final(self)@ == old(self)@
                },
            },
    {
        let n = find_member(&self.files, filename.as_bytes());
        if n == self.files.len() {
            return Err(PboError::MemberNotFound);
        }
        let srclen = self.source.len();
        proof {
            let a = self@;
            lemma_sum_sizes_nonneg(a.files, n as int);
            lemma_sum_sizes_monotonic(a.files, n + 1, a.files.len() as int);
            assert(dir_view(self.files@)[n as int] == self.files@[n as int]@);
        }
        let off = sum_prefix(&self.files, n) as usize;
        let size = self.files[n].size as usize;
        let start = self.blob_start + off;
        let data = read_bytes(&self.source, start, size);
        self.cursor = start + size;
        Ok(data)
    }

    /// The property table's raw pairs, in decode order.
    pub fn properties(&self) -> (r: &Vec<(Vec<u8>, Vec<u8>)>)
        ensures
            props_view(r@) == self@.properties,
    {
        &self.properties
    }

    /// The value stored under `key`, when the property table holds the key.
    /// On a key written more than once, the last write is the one returned.
    pub fn property(&self, key: &str) -> (r: Option<&Vec<u8>>)
        ensures
            match r {
                Some(v) => {
                    &&& self@.properties.contains_key(key.spec_bytes())
                    &&& v@ == self@.properties[key.spec_bytes()]
                },
                None => !self@.properties.contains_key(key.spec_bytes()),
            },
    {
        let key_bytes = key.as_bytes();
        let mut i = self.properties.len();
        proof {
            assert(self.properties@.take(i as int) =~= self.properties@);
        }
        while i > 0
            invariant
                0 <= i <= self.properties@.len(),
                key_bytes@ == key.spec_bytes(),
                props_view(self.properties@).contains_key(key_bytes@) == props_view(
                    self.properties@.take(i as int),
                ).contains_key(key_bytes@),
                props_view(self.properties@).contains_key(key_bytes@) ==> props_view(
                    self.properties@,
                )[key_bytes@] == props_view(self.properties@.take(i as int))[key_bytes@],
            decreases i,
        {
            i = i - 1;
            proof {
                assert(self.properties@.take(i + 1).drop_last() =~= self.properties@.take(
                    i as int,
                ));
                assert(self.properties@.take(i + 1).last() == self.properties@[i as int]);
            }
            if bytes_eq(&self.properties[i].0, key_bytes) {
                return Some(&self.properties[i].1);
            }
        }
        proof {
            assert(self.properties@.take(0) =~= Seq::<(Vec<u8>, Vec<u8>)>::empty());
        }
        None
    }

    /// The file directory: one record per member, in archive order.
    pub fn files(&self) -> (r: &Vec<BinaryHeader>)
        ensures
            dir_view(r@) == self@.files,
    {
        &self.files
    }

    /// The version header the archive opened with.
    pub fn version_header(&self) -> (r: &BinaryHeader)
        ensures
            r@ == self@.version_header,
    {
        &self.version_header
    }

    /// The raw bytes of the checksum trailer.
    pub fn checksum(&self) -> (r: &Vec<u8>)
        ensures
            r@ == self@.checksum,
    {
        &self.checksum
    }

    /// Offset of the data blob in the source.
    pub fn blob_start(&self) -> (r: usize)
        ensures
            r as int == self@.blob_start,
    {
        self.blob_start
    }

    /// Total length of the backing source.
    pub fn length(&self) -> (r: usize)
        ensures
            r as int == self@.length,
    {
        self.length
    }
}

/// Scans the directory for the first entry whose filename equals `name`
/// byte for byte; the directory's length when there is none.
fn find_member(files: &Vec<BinaryHeader>, name: &[u8]) -> (n: usize)
    ensures
        n <= files@.len(),
        n as int == find_from(dir_view(files@), name@, 0),
{
    let len = files.len();
    let mut i: usize = 0;
    while i < len
        invariant
            0 <= i <= len,
            len == files@.len(),
            find_from(dir_view(files@), name@, 0) == find_from(dir_view(files@), name@, i as int),
        decreases len - i,
    {
        proof {
            assert(dir_view(files@)[i as int] == files@[i as int]@);
        }
        if bytes_eq(&files[i].filename, name) {
            return i;
        }
        i = i + 1;
    }
    len
}

/// Sums the size fields of the first `n` directory entries into a widening
/// accumulator.
fn sum_prefix(files: &Vec<BinaryHeader>, n: usize) -> (off: u64)
    requires
        n <= files@.len(),
        sum_sizes(dir_view(files@), files@.len() as int) <= u64::MAX,
    ensures
        off == sum_sizes(dir_view(files@), n as int),
{
    let mut acc: u64 = 0;
    let mut i: usize = 0;
    while i < n
        invariant
            0 <= i <= n <= files@.len(),
            sum_sizes(dir_view(files@), files@.len() as int) <= u64::MAX,
            acc == sum_sizes(dir_view(files@), i as int),
        decreases n - i,
    {
        proof {
            assert(dir_view(files@)[i as int] == files@[i as int]@);
            lemma_sum_sizes_nonneg(dir_view(files@), i as int);
            lemma_sum_sizes_monotonic(dir_view(files@), i + 1, files@.len() as int);
        }
        acc = acc + files[i].size as u64;
        i = i + 1;
    }
    acc
}

/// Sums the directory's size fields into a widening accumulator, stopping
/// as soon as the sum exceeds `avail`: a blob larger than the bytes that
/// remain cannot fit whatever follows it.
fn blob_size_within(files: &Vec<BinaryHeader>, avail: u64) -> (r: Option<u64>)
    ensures
        match r {
            Some(t) => {
                &&& t == sum_sizes(dir_view(files@), files@.len() as int)
                &&& t <= avail
            },
            None => sum_sizes(dir_view(files@), files@.len() as int) > avail,
        },
{
    let n = files.len();
    let mut acc: u64 = 0;
    let mut i: usize = 0;
    while i < n
        invariant
            0 <= i <= n,
            n == files@.len(),
            acc == sum_sizes(dir_view(files@), i as int),
            acc <= avail,
        decreases n - i,
    {
        let size = files[i].size as u64;
        proof {
            assert(dir_view(files@)[i as int] == files@[i as int]@);
        }
        if size > avail - acc {
            proof {
                lemma_sum_sizes_monotonic(dir_view(files@), i + 1, n as int);
            }
            return None;
        }
        acc = acc + size;
        i = i + 1;
    }
    Some(acc)
}

} // verus!
