//! Laws of the archive reader, stated over the mathematical parse: the
//! parse reads nothing past the structure it accepts, opening demands the
//! source end exactly at the checksum trailer, the members concatenate back
//! to the data blob, and extraction is a pure function of the directory.

use crate::codec::{le_u32_at, lemma_null_pos, null_pos, spec_read_header, SpecHeader};
use crate::error::PboError;
use crate::handle::{
    find_from, lemma_find_from, lemma_read_header_bounds, lemma_sum_sizes_monotonic,
    lemma_sum_sizes_nonneg, spec_dir, spec_extract, spec_open, spec_props, sum_sizes, SpecArchive,
};
use vstd::prelude::*;

verus! {

/// A terminated string is found at the same place in any stream that agrees
/// with `s` up to and including the terminator.
pub proof fn lemma_null_pos_agree(s: Seq<u8>, t: Seq<u8>, pos: int)
    requires
        0 <= pos <= s.len(),
        null_pos(s, pos) < s.len(),
        null_pos(s, pos) < t.len(),
        forall|i: int| pos <= i <= null_pos(s, pos) ==> t[i] == s[i],
    ensures
        null_pos(t, pos) == null_pos(s, pos),
    decreases s.len() - pos,
{
    lemma_null_pos(s, pos);
    if s[pos] != 0 {
        lemma_null_pos_agree(s, t, pos + 1);
    }
}

/// A header record decodes identically from any stream that agrees with `s`
/// on the record's own bytes: the codec reads nothing past the record.
pub proof fn lemma_header_agree(s: Seq<u8>, t: Seq<u8>, pos: int)
    requires
        0 <= pos <= s.len(),
        spec_read_header(s, pos) is Ok,
        spec_read_header(s, pos)->Ok_0.1 <= t.len(),
        forall|i: int| pos <= i < spec_read_header(s, pos)->Ok_0.1 ==> t[i] == s[i],
    ensures
        spec_read_header(t, pos) == spec_read_header(s, pos),
{
    lemma_null_pos(s, pos + 4);
    let q = null_pos(s, pos + 4);
    lemma_null_pos_agree(s, t, pos + 4);
    assert(le_u32_at(t, pos) == le_u32_at(s, pos));
    assert(le_u32_at(t, q + 1) == le_u32_at(s, q + 1));
    assert(le_u32_at(t, q + 5) == le_u32_at(s, q + 5));
    assert(le_u32_at(t, q + 9) == le_u32_at(s, q + 9));
    assert(le_u32_at(t, q + 13) == le_u32_at(s, q + 13));
    assert(t.subrange(pos + 4, q) =~= s.subrange(pos + 4, q));
}

/// A parsed property table ends strictly past where it starts and within
/// the stream.
pub proof fn lemma_props_end_bounds(s: Seq<u8>, pos: int)
    requires
        0 <= pos <= s.len(),
        spec_props(s, pos) is Some,
    ensures
        pos < spec_props(s, pos)->Some_0.1 <= s.len(),
    decreases s.len() - pos,
{
    reveal(spec_props);
    lemma_null_pos(s, pos);
    let kq = null_pos(s, pos);
    if kq < s.len() && kq != pos {
        lemma_null_pos(s, kq + 1);
        let vq = null_pos(s, kq + 1);
        if vq < s.len() {
            lemma_props_end_bounds(s, vq + 1);
        }
    }
}

/// A property table parses identically from any stream that agrees with `s`
/// on the table's own bytes: bytes past the terminating empty key are never
/// read as part of the table.
pub proof fn lemma_props_agree(s: Seq<u8>, t: Seq<u8>, pos: int)
    requires
        0 <= pos <= s.len(),
        spec_props(s, pos) is Some,
        spec_props(s, pos)->Some_0.1 <= t.len(),
        forall|i: int| pos <= i < spec_props(s, pos)->Some_0.1 ==> t[i] == s[i],
    ensures
        spec_props(t, pos) == spec_props(s, pos),
    decreases s.len() - pos,
{
    reveal(spec_props);
    lemma_props_end_bounds(s, pos);
    lemma_null_pos(s, pos);
    let kq = null_pos(s, pos);
    if kq == pos {
        assert(null_pos(t, pos) == pos);
    } else {
        lemma_null_pos(s, kq + 1);
        let vq = null_pos(s, kq + 1);
        lemma_props_end_bounds(s, vq + 1);
        lemma_null_pos_agree(s, t, pos);
        lemma_null_pos_agree(s, t, kq + 1);
        lemma_props_agree(s, t, vq + 1);
        assert(t.subrange(pos, kq) =~= s.subrange(pos, kq));
        assert(t.subrange(kq + 1, vq) =~= s.subrange(kq + 1, vq));
    }
}

/// A parsed directory ends past at least one record and within the stream.
pub proof fn lemma_dir_end_bounds(s: Seq<u8>, pos: int)
    requires
        0 <= pos <= s.len(),
        spec_dir(s, pos) is Ok,
    ensures
        pos + 21 <= spec_dir(s, pos)->Ok_0.1 <= s.len(),
    decreases s.len() - pos,
{
    reveal(spec_dir);
    lemma_read_header_bounds(s, pos);
    let rec = spec_read_header(s, pos)->Ok_0;
    if rec.0.filename.len() != 0 {
        lemma_dir_end_bounds(s, rec.1);
    }
}

/// A directory parses identically from any stream that agrees with `s` up
/// to the blob start: the directory parse never reads the blob.
pub proof fn lemma_dir_agree(s: Seq<u8>, t: Seq<u8>, pos: int)
    requires
        0 <= pos <= s.len(),
        spec_dir(s, pos) is Ok,
        spec_dir(s, pos)->Ok_0.1 <= t.len(),
        forall|i: int| pos <= i < spec_dir(s, pos)->Ok_0.1 ==> t[i] == s[i],
    ensures
        spec_dir(t, pos) == spec_dir(s, pos),
    decreases s.len() - pos,
{
    reveal(spec_dir);
    lemma_read_header_bounds(s, pos);
    let rec = spec_read_header(s, pos)->Ok_0;
    if rec.0.filename.len() == 0 {
        lemma_header_agree(s, t, pos);
    } else {
        lemma_dir_end_bounds(s, rec.1);
        lemma_header_agree(s, t, pos);
        lemma_dir_agree(s, t, rec.1);
    }
}

/// A directory never holds the empty-filename sentinel that terminated it:
/// every returned entry carries a nonempty name.
pub proof fn lemma_dir_entries_named(s: Seq<u8>, pos: int)
    requires
        0 <= pos <= s.len(),
        spec_dir(s, pos) is Ok,
    ensures
        forall|i: int|
            0 <= i < spec_dir(s, pos)->Ok_0.0.len() ==> spec_dir(
                s,
                pos,
            )->Ok_0.0[i].filename.len() > 0,
    decreases s.len() - pos,
{
    reveal(spec_dir);
    lemma_read_header_bounds(s, pos);
    let rec = spec_read_header(s, pos)->Ok_0;
    if rec.0.filename.len() != 0 {
        lemma_dir_entries_named(s, rec.1);
    }
}

/// Opening accepts a source exactly when the checksum trailer ends at the
/// source's last byte. Appending any bytes to an accepted source turns the
/// open into `TrailingData`: the format defines no content after the
/// trailer.
pub proof fn lemma_open_trailing(s: Seq<u8>, t: Seq<u8>)
    requires
        spec_open(s) is Ok,
        s.len() < t.len(),
        forall|i: int| 0 <= i < s.len() ==> t[i] == s[i],
    ensures
        spec_open(t) == Err::<SpecArchive, PboError>(PboError::TrailingData),
{
    let ver = spec_read_header(s, 0)->Ok_0;
    lemma_read_header_bounds(s, 0);
    lemma_props_end_bounds(s, ver.1);
    let props = spec_props(s, ver.1)->Some_0;
    lemma_dir_end_bounds(s, props.1);
    let dir = spec_dir(s, props.1)->Ok_0;
    lemma_header_agree(s, t, 0);
    lemma_props_agree(s, t, ver.1);
    lemma_dir_agree(s, t, props.1);
    lemma_sum_sizes_nonneg(dir.0, dir.0.len() as int);
}

/// Cutting an accepted source anywhere at or after the blob start — by as
/// little as one byte — turns the open into `TruncatedArchive`: the blob,
/// the separator and the trailer no longer fit.
pub proof fn lemma_open_truncated(s: Seq<u8>, n: int)
    requires
        spec_open(s) is Ok,
        spec_open(s)->Ok_0.blob_start <= n < s.len(),
    ensures
        spec_open(s.take(n)) == Err::<SpecArchive, PboError>(PboError::TruncatedArchive),
{
    let t = s.take(n);
    let ver = spec_read_header(s, 0)->Ok_0;
    lemma_read_header_bounds(s, 0);
    lemma_props_end_bounds(s, ver.1);
    let props = spec_props(s, ver.1)->Some_0;
    lemma_dir_end_bounds(s, props.1);
    let dir = spec_dir(s, props.1)->Ok_0;
    lemma_header_agree(s, t, 0);
    lemma_props_agree(s, t, ver.1);
    lemma_dir_agree(s, t, props.1);
    lemma_sum_sizes_nonneg(dir.0, dir.0.len() as int);
}

/// The bytes of the directory's `i`th member inside the data blob: they
/// start after the sizes of every entry before it and run for its own size.
pub open spec fn member_bytes(a: SpecArchive, i: int) -> Seq<u8> {
    a.source.subrange(
        a.blob_start + sum_sizes(a.files, i),
        a.blob_start + sum_sizes(a.files, i + 1),
    )
}

/// The members' bytes of the first `n` directory entries, concatenated in
/// directory order.
pub open spec fn members_concat(a: SpecArchive, n: int) -> Seq<u8>
    decreases n,
{
    if n <= 0 {
        Seq::empty()
    } else {
        members_concat(a, n - 1) + member_bytes(a, n - 1)
    }
}

proof fn lemma_members_concat_prefix(a: SpecArchive, n: int)
    requires
        0 <= n <= a.files.len(),
        0 <= a.blob_start,
        a.blob_start + sum_sizes(a.files, a.files.len() as int) <= a.source.len(),
    ensures
        members_concat(a, n) == a.source.subrange(
            a.blob_start,
            a.blob_start + sum_sizes(a.files, n),
        ),
    decreases n,
{
    lemma_sum_sizes_nonneg(a.files, n);
    lemma_sum_sizes_monotonic(a.files, n, a.files.len() as int);
    if n == 0 {
        assert(a.source.subrange(a.blob_start, a.blob_start) =~= Seq::<u8>::empty());
    } else {
        lemma_members_concat_prefix(a, n - 1);
        lemma_sum_sizes_nonneg(a.files, n - 1);
        assert(a.source.subrange(a.blob_start, a.blob_start + sum_sizes(a.files, n - 1))
            + member_bytes(a, n - 1) =~= a.source.subrange(
            a.blob_start,
            a.blob_start + sum_sizes(a.files, n),
        ));
    }
}

/// Round trip: on an accepted source, the concatenation of every member's
/// bytes, in directory order, is exactly the data blob.
pub proof fn lemma_blob_round_trip(s: Seq<u8>)
    requires
        spec_open(s) is Ok,
    ensures
        ({
            let a = spec_open(s)->Ok_0;
            members_concat(a, a.files.len() as int) == a.source.subrange(
                a.blob_start,
                a.blob_start + sum_sizes(a.files, a.files.len() as int),
            )
        }),
{
    let a = spec_open(s)->Ok_0;
    let ver = spec_read_header(s, 0)->Ok_0;
    lemma_read_header_bounds(s, 0);
    lemma_props_end_bounds(s, ver.1);
    let props = spec_props(s, ver.1)->Some_0;
    lemma_dir_end_bounds(s, props.1);
    lemma_sum_sizes_nonneg(a.files, a.files.len() as int);
    lemma_members_concat_prefix(a, a.files.len() as int);
}

/// Extraction yields exactly the member bytes of the first entry whose
/// filename matches: `size` bytes, at the prefix-sum offset.
pub proof fn lemma_extract_is_member(a: SpecArchive, name: Seq<u8>)
    requires
        find_from(a.files, name, 0) < a.files.len(),
    ensures
        spec_extract(a, name) == Ok::<Seq<u8>, PboError>(
            member_bytes(a, find_from(a.files, name, 0)),
        ),
{
    lemma_find_from(a.files, name, 0);
}

/// Extraction is a pure function of the source, the directory and the blob
/// start. Extraction changes none of the three, so extracting the same name
/// again — in any order, any number of times — yields identical bytes.
pub proof fn lemma_extract_idempotent(a: SpecArchive, b: SpecArchive, name: Seq<u8>)
    requires
        a.source == b.source,
        a.files == b.files,
        a.blob_start == b.blob_start,
    ensures
        spec_extract(a, name) == spec_extract(b, name),
{
}

} // verus!
