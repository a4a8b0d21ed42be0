//! Round-trip law for the directory reader.
//!
//! A spec-level serializer lays out a central directory and a
//! zero-comment EOCD record the way the wire format prescribes. The law
//! proved here: on such an image the EOCD record reconciles at
//! `len - 22` and nowhere later — so the locator's contract forces it to
//! report exactly `len - 22` — and the walker returns exactly the
//! serialized entries, in storage order, with their names decoded under
//! the configured policy.

use vstd::prelude::*;

use crate::encoding::decoded_name;
use crate::encoding::FallbackPolicy;
use crate::encoding::NameEncoding;
use crate::encoding::ZipError;
use crate::fields::le16_at;
use crate::fields::le32_at;
use crate::zip::cd_walk;
use crate::zip::cdfh_at;
use crate::zip::cdfh_flags;
use crate::zip::cdfh_name_bytes;
use crate::zip::cdfh_size;
use crate::zip::cdfh_span;
use crate::zip::eocd_at;
use crate::zip::is_utf8_flag;
use crate::zip::EntryModel;

verus! {

/// What goes into one serialized central-directory record.
pub ghost struct RawEntry {
    pub name_bytes: Seq<u8>,
    pub uncompressed_size: u32,
    pub general_purpose_bit_flag: Seq<u8>,
}

/// A serializable entry: a two-byte flag field and a name whose length
/// fits its two-byte length field.
pub open spec fn wf_raw_entry(e: RawEntry) -> bool {
    &&& e.general_purpose_bit_flag.len() == 2
    &&& e.name_bytes.len() < 65536
}

/// `n` zero bytes.
pub open spec fn zeros(n: nat) -> Seq<u8> {
    Seq::new(n, |i: int| 0u8)
}

/// A 16-bit value in little-endian byte order.
pub open spec fn le16_bytes(v: int) -> Seq<u8> {
    seq![(v % 256) as u8, ((v / 256) % 256) as u8]
}

/// A 32-bit value in little-endian byte order.
pub open spec fn le32_bytes(v: int) -> Seq<u8> {
    le16_bytes(v % 65536) + le16_bytes(v / 65536)
}

/// One serialized CDFH record with empty extra and comment fields: the
/// signature, the fixed fields at their prescribed offsets, then the name.
pub open spec fn cdfh_bytes(e: RawEntry) -> Seq<u8> {
    seq![0x50u8, 0x4bu8, 0x01u8, 0x02u8] + zeros(4) + e.general_purpose_bit_flag + zeros(14)
        + le32_bytes(e.uncompressed_size as int) + le16_bytes(e.name_bytes.len() as int)
        + le16_bytes(0) + le16_bytes(0) + zeros(12) + e.name_bytes
}

/// The serialized central directory: each record in storage order.
pub open spec fn central_directory_bytes(entries: Seq<RawEntry>) -> Seq<u8>
    decreases entries.len(),
{
    if entries.len() == 0 {
        Seq::empty()
    } else {
        cdfh_bytes(entries[0]) + central_directory_bytes(entries.skip(1))
    }
}

/// A serialized EOCD record with a zero-length comment.
pub open spec fn eocd_bytes(count: int, cd_size: int, cd_start: int) -> Seq<u8> {
    seq![0x50u8, 0x4bu8, 0x05u8, 0x06u8] + zeros(4) + le16_bytes(count) + le16_bytes(count)
        + le32_bytes(cd_size) + le32_bytes(cd_start) + le16_bytes(0)
}

/// A whole archive image: anything at all, then the central directory,
/// then the zero-comment EOCD record that points back at it.
pub open spec fn archive_bytes(prefix: Seq<u8>, entries: Seq<RawEntry>) -> Seq<u8> {
    prefix + central_directory_bytes(entries) + eocd_bytes(
        entries.len() as int,
        central_directory_bytes(entries).len() as int,
        prefix.len() as int,
    )
}

/// The name a successful decode produced.
pub open spec fn ok_name(r: Result<Seq<char>, ZipError>) -> Seq<char> {
    match r {
        Ok(n) => n,
        Err(_) => Seq::empty(),
    }
}

/// The entry model a serialized record comes back as.
pub open spec fn decoded_entry(e: RawEntry, enc: NameEncoding, fb: FallbackPolicy) -> EntryModel {
    EntryModel {
        name: ok_name(
            decoded_name(e.name_bytes, is_utf8_flag(e.general_purpose_bit_flag), enc, fb),
        ),
        uncompressed_size: e.uncompressed_size,
        general_purpose_bit_flag: e.general_purpose_bit_flag,
    }
}

/// The entry models a serialized directory comes back as.
pub open spec fn decoded_entries(
    entries: Seq<RawEntry>,
    enc: NameEncoding,
    fb: FallbackPolicy,
) -> Seq<EntryModel> {
    entries.map_values(|e: RawEntry| decoded_entry(e, enc, fb))
}

proof fn lemma_le16_value(data: Seq<u8>, pos: int, v: int)
    requires
        0 <= v < 65536,
        0 <= pos,
        pos + 2 <= data.len(),
        data[pos] == (v % 256) as u8,
        data[pos + 1] == ((v / 256) % 256) as u8,
    ensures
        le16_at(data, pos) == v,
{
    assert(0 <= v / 256 < 256);
    assert((v / 256) % 256 == v / 256);
    assert(v % 256 + 256 * (v / 256) == v) by {
        vstd::arithmetic::div_mod::lemma_fundamental_div_mod(v, 256);
    }
}

proof fn lemma_le32_value(data: Seq<u8>, pos: int, v: int)
    requires
        0 <= v < 0x1_0000_0000,
        0 <= pos,
        pos + 4 <= data.len(),
        data.subrange(pos, pos + 4) == le32_bytes(v),
    ensures
        le32_at(data, pos) == v,
{
    let lo = v % 65536;
    let hi = v / 65536;
    assert(0 <= hi < 65536);
    assert(data[pos] == le32_bytes(v)[0]);
    assert(data[pos + 1] == le32_bytes(v)[1]);
    assert(data[pos + 2] == le32_bytes(v)[2]);
    assert(data[pos + 3] == le32_bytes(v)[3]);
    lemma_le16_value(data, pos, lo);
    lemma_le16_value(data, pos + 2, hi);
    assert(lo + 65536 * hi == v) by {
        vstd::arithmetic::div_mod::lemma_fundamental_div_mod(v, 65536);
    }
}

/// A serialized record parses back to exactly its fields.
proof fn lemma_cdfh_parse(data: Seq<u8>, pos: int, e: RawEntry)
    requires
        wf_raw_entry(e),
        0 <= pos,
        pos + 46 + e.name_bytes.len() <= data.len(),
        data.subrange(pos, pos + 46 + e.name_bytes.len()) == cdfh_bytes(e),
    ensures
        cdfh_at(data, pos),
        cdfh_span(data, pos) == 46 + e.name_bytes.len(),
        cdfh_flags(data, pos) == e.general_purpose_bit_flag,
        cdfh_size(data, pos) == e.uncompressed_size,
        cdfh_name_bytes(data, pos) == e.name_bytes,
{
    let nl = e.name_bytes.len() as int;
    let rec = cdfh_bytes(e);
    let a1 = seq![0x50u8, 0x4bu8, 0x01u8, 0x02u8];
    let a2 = a1 + zeros(4);
    let a3 = a2 + e.general_purpose_bit_flag;
    let a4 = a3 + zeros(14);
    let a5 = a4 + le32_bytes(e.uncompressed_size as int);
    let a6 = a5 + le16_bytes(nl);
    let a7 = a6 + le16_bytes(0);
    let a8 = a7 + le16_bytes(0);
    let a9 = a8 + zeros(12);
    assert(rec == a9 + e.name_bytes);
    assert(a1.len() == 4);
    assert(a2.len() == 8);
    assert(a3.len() == 10);
    assert(a4.len() == 24);
    assert(a5.len() == 28);
    assert(a6.len() == 30);
    assert(a7.len() == 32);
    assert(a8.len() == 34);
    assert(a9.len() == 46);
    assert(rec.len() == 46 + nl);
    assert forall|k: int| 0 <= k < 46 + nl implies data[pos + k] == rec[k] by {
        assert(data.subrange(pos, pos + 46 + nl)[k] == data[pos + k]);
    }
    assert forall|k: int| 0 <= k < 46 implies rec[k] == a9[k] by {}
    assert forall|k: int| 0 <= k < 34 implies a9[k] == a8[k] by {}
    assert forall|k: int| 0 <= k < 32 implies a8[k] == a7[k] by {}
    assert forall|k: int| 0 <= k < 30 implies a7[k] == a6[k] by {}
    assert forall|k: int| 0 <= k < 28 implies a6[k] == a5[k] by {}
    assert forall|k: int| 0 <= k < 24 implies a5[k] == a4[k] by {}
    assert forall|k: int| 0 <= k < 10 implies a4[k] == a3[k] by {}
    assert forall|k: int| 0 <= k < 8 implies a3[k] == a2[k] by {}
    assert forall|k: int| 0 <= k < 4 implies a2[k] == a1[k] by {}
    assert(data[pos + 28] == le16_bytes(nl)[0]) by {
        assert(a6[28] == le16_bytes(nl)[0]);
    }
    assert(data[pos + 29] == le16_bytes(nl)[1]) by {
        assert(a6[29] == le16_bytes(nl)[1]);
    }
    lemma_le16_value(data, pos + 28, nl);
    assert(data[pos + 30] == le16_bytes(0)[0]) by {
        assert(a7[30] == le16_bytes(0)[0]);
    }
    assert(data[pos + 31] == le16_bytes(0)[1]) by {
        assert(a7[31] == le16_bytes(0)[1]);
    }
    lemma_le16_value(data, pos + 30, 0);
    assert(data[pos + 32] == le16_bytes(0)[0]) by {
        assert(a8[32] == le16_bytes(0)[0]);
    }
    assert(data[pos + 33] == le16_bytes(0)[1]) by {
        assert(a8[33] == le16_bytes(0)[1]);
    }
    lemma_le16_value(data, pos + 32, 0);
    assert(cdfh_span(data, pos) == 46 + nl);
    assert forall|j: int| 0 <= j < 4 implies data.subrange(pos + 24, pos + 28)[j] == le32_bytes(
        e.uncompressed_size as int,
    )[j] by {
        assert(data[pos + 24 + j] == rec[24 + j]);
        assert(a5[24 + j] == le32_bytes(e.uncompressed_size as int)[j]);
    }
    assert(data.subrange(pos + 24, pos + 28) =~= le32_bytes(e.uncompressed_size as int));
    lemma_le32_value(data, pos + 24, e.uncompressed_size as int);
    assert(data[pos + 8] == e.general_purpose_bit_flag[0]) by {
        assert(a3[8] == e.general_purpose_bit_flag[0]);
    }
    assert(data[pos + 9] == e.general_purpose_bit_flag[1]) by {
        assert(a3[9] == e.general_purpose_bit_flag[1]);
    }
    assert(cdfh_flags(data, pos) =~= e.general_purpose_bit_flag);
    assert forall|j: int| 0 <= j < nl implies cdfh_name_bytes(data, pos)[j] == e.name_bytes[j] by {
        assert(data[pos + 46 + j] == rec[46 + j]);
        assert(rec[46 + j] == e.name_bytes[j]);
    }
    assert(cdfh_name_bytes(data, pos) =~= e.name_bytes);
    assert(data[pos] == 0x50u8 && data[pos + 1] == 0x4bu8 && data[pos + 2] == 0x01u8 && data[pos
        + 3] == 0x02u8);
}

/// A serialized zero-comment EOCD record reconciles and carries its
/// count and start offset where the walker looks for them.
proof fn lemma_eocd_parse(data: Seq<u8>, pos: int, count: int, cd_size: int, cd_start: int)
    requires
        0 <= count < 65536,
        0 <= cd_size < 0x1_0000_0000,
        0 <= cd_start < 0x1_0000_0000,
        0 <= pos,
        pos + 22 == data.len(),
        data.subrange(pos, pos + 22) == eocd_bytes(count, cd_size, cd_start),
    ensures
        eocd_at(data, pos),
        le16_at(data, pos + 10) == count,
        le32_at(data, pos + 16) == cd_start,
{
    let rec = eocd_bytes(count, cd_size, cd_start);
    let a1 = seq![0x50u8, 0x4bu8, 0x05u8, 0x06u8];
    let a2 = a1 + zeros(4);
    let a3 = a2 + le16_bytes(count);
    let a4 = a3 + le16_bytes(count);
    let a5 = a4 + le32_bytes(cd_size);
    let a6 = a5 + le32_bytes(cd_start);
    assert(rec == a6 + le16_bytes(0));
    assert(a1.len() == 4);
    assert(a2.len() == 8);
    assert(a3.len() == 10);
    assert(a4.len() == 12);
    assert(a5.len() == 16);
    assert(a6.len() == 20);
    assert(rec.len() == 22);
    assert forall|k: int| 0 <= k < 22 implies data[pos + k] == rec[k] by {
        assert(data.subrange(pos, pos + 22)[k] == data[pos + k]);
    }
    assert forall|k: int| 0 <= k < 20 implies rec[k] == a6[k] by {}
    assert forall|k: int| 0 <= k < 16 implies a6[k] == a5[k] by {}
    assert forall|k: int| 0 <= k < 12 implies a5[k] == a4[k] by {}
    assert forall|k: int| 0 <= k < 10 implies a4[k] == a3[k] by {}
    assert forall|k: int| 0 <= k < 8 implies a3[k] == a2[k] by {}
    assert forall|k: int| 0 <= k < 4 implies a2[k] == a1[k] by {}
    assert(data[pos + 10] == le16_bytes(count)[0]) by {
        assert(a4[10] == le16_bytes(count)[0]);
    }
    assert(data[pos + 11] == le16_bytes(count)[1]) by {
        assert(a4[11] == le16_bytes(count)[1]);
    }
    lemma_le16_value(data, pos + 10, count);
    assert(data[pos + 20] == le16_bytes(0)[0]) by {
        assert(rec[20] == le16_bytes(0)[0]);
    }
    assert(data[pos + 21] == le16_bytes(0)[1]) by {
        assert(rec[21] == le16_bytes(0)[1]);
    }
    lemma_le16_value(data, pos + 20, 0);
    assert forall|j: int| 0 <= j < 4 implies data.subrange(pos + 16, pos + 20)[j] == le32_bytes(
        cd_start,
    )[j] by {
        assert(data[pos + 16 + j] == rec[16 + j]);
        assert(a6[16 + j] == le32_bytes(cd_start)[j]);
    }
    assert(data.subrange(pos + 16, pos + 20) =~= le32_bytes(cd_start));
    lemma_le32_value(data, pos + 16, cd_start);
    assert(data[pos] == 0x50u8 && data[pos + 1] == 0x4bu8 && data[pos + 2] == 0x05u8 && data[pos
        + 3] == 0x06u8);
}

/// A serialized central directory walks back to exactly its entries.
proof fn lemma_cd_parse(
    data: Seq<u8>,
    pos: int,
    entries: Seq<RawEntry>,
    enc: NameEncoding,
    fb: FallbackPolicy,
)
    requires
        forall|i: int| 0 <= i < entries.len() ==> wf_raw_entry(#[trigger] entries[i]),
        forall|i: int|
            0 <= i < entries.len() ==> decoded_name(
                (#[trigger] entries[i]).name_bytes,
                is_utf8_flag(entries[i].general_purpose_bit_flag),
                enc,
                fb,
            ) is Ok,
        0 <= pos,
        pos + central_directory_bytes(entries).len() <= data.len(),
        data.subrange(pos, pos + central_directory_bytes(entries).len() as int)
            == central_directory_bytes(entries),
    ensures
        cd_walk(data, pos, entries.len() as nat, enc, fb) == Ok::<Seq<EntryModel>, ZipError>(
            decoded_entries(entries, enc, fb),
        ),
    decreases entries.len(),
{
    if entries.len() == 0 {
        assert(decoded_entries(entries, enc, fb) =~= Seq::<EntryModel>::empty());
    } else {
        let e = entries[0];
        let rest = entries.skip(1);
        let head = cdfh_bytes(e);
        let tail = central_directory_bytes(rest);
        let span = 46 + e.name_bytes.len() as int;
        assert(central_directory_bytes(entries) == head + tail);
        assert(head.len() == span);
        let total = central_directory_bytes(entries).len() as int;
        assert(total == span + tail.len());
        assert forall|k: int| 0 <= k < total implies data[pos + k] == (head + tail)[k] by {
            assert(data.subrange(pos, pos + total)[k] == data[pos + k]);
        }
        assert forall|k: int| 0 <= k < span implies data.subrange(pos, pos + span)[k] == head[k] by {
            assert(data[pos + k] == (head + tail)[k]);
        }
        assert(data.subrange(pos, pos + span) =~= head);
        lemma_cdfh_parse(data, pos, e);
        assert forall|k: int|
            0 <= k < tail.len() implies data.subrange(
            pos + span,
            pos + span + tail.len() as int,
        )[k] == tail[k] by {
            let k2 = span + k;
            assert(data[pos + k2] == (head + tail)[k2]);
            assert((head + tail)[k2] == tail[k2 - span]);
        }
        assert(data.subrange(pos + span, pos + span + tail.len() as int) =~= tail);
        assert(forall|i: int| 0 <= i < rest.len() ==> wf_raw_entry(#[trigger] rest[i]));
        lemma_cd_parse(data, pos + span, rest, enc, fb);
        let nm = ok_name(
            decoded_name(e.name_bytes, is_utf8_flag(e.general_purpose_bit_flag), enc, fb),
        );
        assert(cdfh_size(data, pos) as u32 == e.uncompressed_size);
        assert(decoded_entries(entries, enc, fb) =~= seq![decoded_entry(e, enc, fb)]
            + decoded_entries(rest, enc, fb));
    }
}

/// Law (round trip): on an archive image built from any prefix, any
/// serializable entries whose names decode under the configured policy,
/// and a zero-length comment, the EOCD record reconciles at `len - 22`
/// and nowhere later — so the locator must report exactly that offset —
/// its count and start fields read back as the entry count and the
/// directory's start, and the walker returns exactly the serialized
/// entries in storage order.
pub proof fn lemma_round_trip(
    prefix: Seq<u8>,
    entries: Seq<RawEntry>,
    enc: NameEncoding,
    fb: FallbackPolicy,
)
    requires
        forall|i: int| 0 <= i < entries.len() ==> wf_raw_entry(#[trigger] entries[i]),
        forall|i: int|
            0 <= i < entries.len() ==> decoded_name(
                (#[trigger] entries[i]).name_bytes,
                is_utf8_flag(entries[i].general_purpose_bit_flag),
                enc,
                fb,
            ) is Ok,
        entries.len() < 65536,
        prefix.len() + central_directory_bytes(entries).len() < 0x1_0000_0000,
    ensures
        archive_bytes(prefix, entries).len() == prefix.len() + central_directory_bytes(
            entries,
        ).len() + 22,
        eocd_at(archive_bytes(prefix, entries), archive_bytes(prefix, entries).len() - 22),
        forall|q: int|
            archive_bytes(prefix, entries).len() - 22 < q ==> !eocd_at(
                archive_bytes(prefix, entries),
                q,
            ),
        le16_at(archive_bytes(prefix, entries), archive_bytes(prefix, entries).len() - 22 + 10)
            == entries.len(),
        le32_at(archive_bytes(prefix, entries), archive_bytes(prefix, entries).len() - 22 + 16)
            == prefix.len(),
        cd_walk(archive_bytes(prefix, entries), prefix.len() as int, entries.len() as nat, enc, fb)
            == Ok::<Seq<EntryModel>, ZipError>(decoded_entries(entries, enc, fb)),
{
    let cd = central_directory_bytes(entries);
    let eo = eocd_bytes(entries.len() as int, cd.len() as int, prefix.len() as int);
    let data = archive_bytes(prefix, entries);
    assert(eo.len() == 22);
    assert(data == prefix + cd + eo);
    assert(data.len() == prefix.len() + cd.len() + 22);
    let p0 = prefix.len() + cd.len();
    assert(data.subrange(p0 as int, p0 as int + 22) =~= eo);
    lemma_eocd_parse(data, p0 as int, entries.len() as int, cd.len() as int, prefix.len() as int);
    assert(data.subrange(prefix.len() as int, prefix.len() as int + cd.len() as int) =~= cd);
    lemma_cd_parse(data, prefix.len() as int, entries, enc, fb);
}

} // verus!
