//! The ZIP central-directory reader.
//!
//! Two sequential operations over an in-memory archive image: the locator
//! finds the 22-byte End-Of-Central-Directory (EOCD) record under an
//! arbitrary trailing comment, and the walker iterates the declared number
//! of Central Directory File Header (CDFH) records, decoding each stored
//! name under the configured encoding policy.

use vstd::prelude::*;

use crate::encoding::decode_name;
use crate::encoding::decoded_name;
use crate::encoding::name_result_matches;
use crate::encoding::parse_encoding;
use crate::encoding::FallbackPolicy;
use crate::encoding::NameEncoding;
use crate::encoding::ZipError;
use crate::fields::le16_at;
use crate::fields::le32_at;
use crate::fields::read_le16;
use crate::fields::read_le32;

verus! {

/// A reconciled EOCD record starts at `pos`: the signature bytes
/// `50 4B 05 06` followed by a 22-byte fixed prefix whose comment-length
/// field (little-endian, at prefix offset 20) accounts for every byte
/// between the end of the record and the end of the file.
pub open spec fn eocd_at(data: Seq<u8>, pos: int) -> bool {
    &&& 0 <= pos
    &&& pos + 22 <= data.len()
    &&& data[pos] == 0x50u8
    &&& data[pos + 1] == 0x4bu8
    &&& data[pos + 2] == 0x05u8
    &&& data[pos + 3] == 0x06u8
    &&& pos + 22 + le16_at(data, pos + 20) == data.len()
}

/// Somewhere in the file a reconciled EOCD record starts.
pub open spec fn has_eocd(data: Seq<u8>) -> bool {
    exists|pos: int| eocd_at(data, pos)
}

/// The name, extra-field and comment lengths declared by the CDFH at `pos`.
pub open spec fn cdfh_name_len(data: Seq<u8>, pos: int) -> int {
    le16_at(data, pos + 28)
}

pub open spec fn cdfh_extra_len(data: Seq<u8>, pos: int) -> int {
    le16_at(data, pos + 30)
}

pub open spec fn cdfh_comment_len(data: Seq<u8>, pos: int) -> int {
    le16_at(data, pos + 32)
}

/// Total number of bytes the CDFH at `pos` occupies: 46 fixed bytes plus
/// its three variable-length trailers.
pub open spec fn cdfh_span(data: Seq<u8>, pos: int) -> int {
    46 + cdfh_name_len(data, pos) + cdfh_extra_len(data, pos) + cdfh_comment_len(data, pos)
}

/// A structurally sound CDFH starts at `pos`: the signature bytes
/// `50 4B 01 02`, and the whole record — fixed part and trailers — lies
/// within the file.
pub open spec fn cdfh_at(data: Seq<u8>, pos: int) -> bool {
    &&& 0 <= pos
    &&& pos + 46 <= data.len()
    &&& data[pos] == 0x50u8
    &&& data[pos + 1] == 0x4bu8
    &&& data[pos + 2] == 0x01u8
    &&& data[pos + 3] == 0x02u8
    &&& pos + cdfh_span(data, pos) <= data.len()
}

/// The raw two-byte general-purpose flag field of the CDFH at `pos`.
pub open spec fn cdfh_flags(data: Seq<u8>, pos: int) -> Seq<u8> {
    seq![data[pos + 8], data[pos + 9]]
}

/// The uncompressed-size field of the CDFH at `pos`.
pub open spec fn cdfh_size(data: Seq<u8>, pos: int) -> int {
    le32_at(data, pos + 24)
}

/// The raw stored-name bytes of the CDFH at `pos`.
pub open spec fn cdfh_name_bytes(data: Seq<u8>, pos: int) -> Seq<u8> {
    data.subrange(pos + 46, pos + 46 + cdfh_name_len(data, pos))
}

/// The flag bit that declares the stored name to be UTF-8, read from the
/// low byte of the two-byte flag field.
pub open spec fn is_utf8_flag(flags: Seq<u8>) -> bool {
    (flags[0] >> 5) & 1 == 1
}

/// The spec-level image of one central-directory entry.
pub ghost struct EntryModel {
    pub name: Seq<char>,
    pub uncompressed_size: u32,
    pub general_purpose_bit_flag: Seq<u8>,
}

/// One archived item, as recovered from its central-directory record.
#[derive(Clone, Debug, PartialEq, Eq)]
pub struct CentralDirectoryFileHeader {
    pub file_name: String,
    pub uncompressed_size: u32,
    pub general_purpose_bit_flag: [u8; 2],
}

impl View for CentralDirectoryFileHeader {
    type V = EntryModel;

    open spec fn view(&self) -> EntryModel {
        EntryModel {
            name: self.file_name@,
            uncompressed_size: self.uncompressed_size,
            general_purpose_bit_flag: self.general_purpose_bit_flag@,
        }
    }
}

/// The views of a sequence of headers.
pub open spec fn entry_views(s: Seq<CentralDirectoryFileHeader>) -> Seq<EntryModel> {
    s.map_values(|h: CentralDirectoryFileHeader| h@)
}

/// The result of walking `count` CDFH records starting at `pos`: the
/// decoded entries in storage order, or the first error met — a structural
/// mismatch before an entry, or that entry's name failing to decode.
pub open spec fn cd_walk(
    data: Seq<u8>,
    pos: int,
    count: nat,
    enc: NameEncoding,
    fb: FallbackPolicy,
) -> Result<Seq<EntryModel>, ZipError>
    decreases count,
{
    if count == 0 {
        Ok(Seq::empty())
    } else if !cdfh_at(data, pos) {
        Err(ZipError::MalformedArchive)
    } else {
        match decoded_name(
            cdfh_name_bytes(data, pos),
            is_utf8_flag(cdfh_flags(data, pos)),
            enc,
            fb,
        ) {
            Err(e) => Err(e),
            Ok(nm) => match cd_walk(data, pos + cdfh_span(data, pos), (count - 1) as nat, enc, fb) {
                Err(e) => Err(e),
                Ok(rest) => Ok(
                    seq![
                        EntryModel {
                            name: nm,
                            uncompressed_size: cdfh_size(data, pos) as u32,
                            general_purpose_bit_flag: cdfh_flags(data, pos),
                        },
                    ] + rest,
                ),
            },
        }
    }
}

/// Law: a successful walk returns exactly as many entries as were asked
/// for, whatever the per-entry trailer lengths were.
pub proof fn lemma_cd_walk_count(
    data: Seq<u8>,
    pos: int,
    count: nat,
    enc: NameEncoding,
    fb: FallbackPolicy,
)
    ensures
        cd_walk(data, pos, count, enc, fb) matches Ok(entries) ==> entries.len() == count,
    decreases count,
{
    if count > 0 && cdfh_at(data, pos) {
        lemma_cd_walk_count(data, pos + cdfh_span(data, pos), (count - 1) as nat, enc, fb);
    }
}

/// An executable walker result agrees with a spec-level one exactly.
pub open spec fn entries_result_matches(
    r: Result<Vec<CentralDirectoryFileHeader>, ZipError>,
    m: Result<Seq<EntryModel>, ZipError>,
) -> bool {
    match (r, m) {
        (Ok(v), Ok(s)) => entry_views(v@) == s,
        (Err(a), Err(b)) => a == b,
        _ => false,
    }
}

/// Find the reconciled EOCD record nearest the end of the file: scan the
/// candidate offsets backward from `len - 22` and accept the first whose
/// comment length accounts for the remaining bytes. A comment is at most
/// 65535 bytes, so no reconciled record can start lower than the scan's
/// floor and a miss means the file holds none at all.
fn find_eocd(data: &Vec<u8>) -> (r: Option<usize>)
    ensures
        match r {
            Some(pos) => {
                &&& eocd_at(data@, pos as int)
                &&& forall|q: int| pos < q ==> !eocd_at(data@, q)
            },
            None => !has_eocd(data@),
        },
{
    let n = data.len();
    if n < 22 {
        return None;
    }
    let low: usize = if n - 22 > 0xffff {
        n - 22 - 0xffff
    } else {
        0
    };
    let mut pos = n - 22;
    loop
        invariant
            n == data@.len(),
            22 <= n,
            low <= pos <= n - 22,
            low == if n - 22 > 0xffff {
                (n - 22 - 0xffff) as usize
            } else {
                0usize
            },
            forall|q: int| pos < q ==> !eocd_at(data@, q),
        decreases pos,
    {
        if data[pos] == 0x50 && data[pos + 1] == 0x4b && data[pos + 2] == 0x05 && data[pos + 3]
            == 0x06 {
            let clen = read_le16(data, pos + 20);
            if clen as usize == n - pos - 22 {
                return Some(pos);
            }
        }
        assert(!eocd_at(data@, pos as int));
        if pos == low {
            assert forall|q: int| q <= pos implies !eocd_at(data@, q) by {
                if eocd_at(data@, q) {
                    assert(le16_at(data@, q + 20) <= 0xffff);
                }
            }
            return None;
        }
        pos = pos - 1;
    }
}

/// A reader over the full byte image of one archive, with the read cursor
/// and the configured name-decoding policy.
pub struct ZipFileReader {
    pub data: Vec<u8>,
    pub pos: usize,
    pub encoding: NameEncoding,
    pub fallback: FallbackPolicy,
}

/// What the walker returns for a reader whose cursor stands at `pos`:
/// the EOCD fixed prefix must fit, and from it come the declared entry
/// count (offset 10) and the central-directory start offset (offset 16).
pub open spec fn spec_read_entries(
    data: Seq<u8>,
    pos: int,
    enc: NameEncoding,
    fb: FallbackPolicy,
) -> Result<Seq<EntryModel>, ZipError> {
    if pos + 22 <= data.len() {
        cd_walk(data, le32_at(data, pos + 16), le16_at(data, pos + 10) as nat, enc, fb)
    } else {
        Err(ZipError::MalformedArchive)
    }
}

impl ZipFileReader {
    /// Build a reader over the archive's bytes. The encoding name is
    /// validated here: anything but `utf8` or `cp932` is a configuration
    /// error, before any entry is looked at.
    pub fn new(data: Vec<u8>, encoding: &str, fallback: FallbackPolicy) -> (r: Result<
        ZipFileReader,
        ZipError,
    >)
        ensures
            match r {
                Ok(z) => {
                    &&& z.data@ == data@
                    &&& z.pos == 0
                    &&& z.fallback == fallback
                    &&& (encoding@ == "utf8"@ ==> z.encoding == NameEncoding::Utf8)
                    &&& (encoding@ == "cp932"@ ==> z.encoding == NameEncoding::Cp932)
                    &&& (encoding@ == "utf8"@ || encoding@ == "cp932"@)
                },
                Err(e) => {
                    &&& e == ZipError::ConfigurationError
                    &&& encoding@ != "utf8"@
                    &&& encoding@ != "cp932"@
                },
            },
    {
        proof {
            reveal_strlit("utf8");
            reveal_strlit("cp932");
            assert("utf8"@.len() != "cp932"@.len());
        }
        match parse_encoding(encoding) {
            Ok(enc) => Ok(
                ZipFileReader { data, pos: 0, encoding: enc, fallback },
            ),
            Err(e) => Err(e),
        }
    }

    /// Move the cursor to the start of the reconciled EOCD record nearest
    /// the end of the file; fail with `MalformedArchive` when no candidate
    /// in the trailing region reconciles.
    pub fn seek_end_of_central_directory_record(&mut self) -> (r: Result<(), ZipError>)
        ensures
            final(self).data@ == old(self).data@,
            final(self).encoding == old(self).encoding,
            final(self).fallback == old(self).fallback,
            r is Ok <==> has_eocd(old(self).data@),
            match r {
                Ok(()) => {
                    &&& eocd_at(old(self).data@, final(self).pos as int)
                    &&& forall|q: int| final(self).pos < q ==> !eocd_at(old(self).data@, q)
                },
                Err(e) => e == ZipError::MalformedArchive && final(self).pos == old(self).pos,
            },
    {
        match find_eocd(&self.data) {
            Some(p) => {
                self.pos = p;
                Ok(())
            },
            None => Err(ZipError::MalformedArchive),
        }
    }

    /// Walk the central directory that the EOCD record under the cursor
    /// declares, returning the decoded entries in storage order, and
    /// exactly as many of them as the record's total-entry-count field
    /// says.
    pub fn read_central_directory_file_header(&self) -> (r: Result<
        Vec<CentralDirectoryFileHeader>,
        ZipError,
    >)
        ensures
            entries_result_matches(
                r,
                spec_read_entries(self.data@, self.pos as int, self.encoding, self.fallback),
            ),
            r matches Ok(v) ==> self.pos + 22 <= self.data@.len() && v@.len() == le16_at(
                self.data@,
                self.pos + 10,
            ),
    {
        let n = self.data.len();
        if self.pos > n || n - self.pos < 22 {
            return Err(ZipError::MalformedArchive);
        }
        let count = read_le16(&self.data, self.pos + 10);
        let start32 = read_le32(&self.data, self.pos + 16);
        let start = start32 as usize;
        let mut out: Vec<CentralDirectoryFileHeader> = Vec::new();
        let mut cur: usize = start;
        let mut i: u16 = 0;
        proof {
            assert(entry_views(out@) =~= Seq::<EntryModel>::empty());
        }
        while i < count
            invariant
                i <= count,
                n == self.data@.len(),
                start == le32_at(self.data@, self.pos + 16),
                count == le16_at(self.data@, self.pos + 10),
                self.pos + 22 <= n,
                out@.len() == i,
                match cd_walk(
                    self.data@,
                    cur as int,
                    (count - i) as nat,
                    self.encoding,
                    self.fallback,
                ) {
                    Ok(rest) => cd_walk(
                        self.data@,
                        start as int,
                        count as nat,
                        self.encoding,
                        self.fallback,
                    ) == Ok::<Seq<EntryModel>, ZipError>(entry_views(out@) + rest),
                    Err(e) => cd_walk(
                        self.data@,
                        start as int,
                        count as nat,
                        self.encoding,
                        self.fallback,
                    ) == Err::<Seq<EntryModel>, ZipError>(e),
                },
            decreases count - i,
        {
            let ghost remaining = (count - i) as nat;
            if cur > n || n - cur < 46 {
                assert(!cdfh_at(self.data@, cur as int));
                return Err(ZipError::MalformedArchive);
            }
            if !(self.data[cur] == 0x50 && self.data[cur + 1] == 0x4b && self.data[cur + 2] == 0x01
                && self.data[cur + 3] == 0x02) {
                assert(!cdfh_at(self.data@, cur as int));
                return Err(ZipError::MalformedArchive);
            }
            let nl = read_le16(&self.data, cur + 28) as usize;
            let el = read_le16(&self.data, cur + 30) as usize;
            let cl = read_le16(&self.data, cur + 32) as usize;
            let rest_avail = n - cur - 46;
            if nl > rest_avail || el > rest_avail - nl || cl > rest_avail - nl - el {
                assert(!cdfh_at(self.data@, cur as int));
                return Err(ZipError::MalformedArchive);
            }
            assert(cdfh_at(self.data@, cur as int));
            let flags: [u8; 2] = [self.data[cur + 8], self.data[cur + 9]];
            proof {
                assert(flags@ =~= cdfh_flags(self.data@, cur as int));
            }
            let size = read_le32(&self.data, cur + 24);
            let mut name_bytes: Vec<u8> = Vec::new();
            let mut j: usize = 0;
            while j < nl
                invariant
                    j <= nl,
                    n == self.data@.len(),
                    cur + 46 + nl <= n,
                    name_bytes@ == self.data@.subrange(cur + 46, cur + 46 + j),
                decreases nl - j,
            {
                name_bytes.push(self.data[cur + 46 + j]);
                proof {
                    assert(name_bytes@ =~= self.data@.subrange(cur + 46, cur + 46 + j + 1));
                }
                j = j + 1;
            }
            proof {
                assert(name_bytes@ == cdfh_name_bytes(self.data@, cur as int));
            }
            let uflag = Self::is_utf8(flags);
            let name = match decode_name(&name_bytes, uflag, self.encoding, self.fallback) {
                Ok(s) => s,
                Err(e) => {
                    return Err(e);
                },
            };
            let header = CentralDirectoryFileHeader {
                file_name: name,
                uncompressed_size: size,
                general_purpose_bit_flag: flags,
            };
            let ghost prev_out = out@;
            out.push(header);
            proof {
                let entry = EntryModel {
                    name: header.file_name@,
                    uncompressed_size: size,
                    general_purpose_bit_flag: flags@,
                };
                assert(entry_views(out@) =~= entry_views(prev_out) + seq![entry]);
                assert(cdfh_size(self.data@, cur as int) as u32 == size);
            }
            let next = cur + 46 + nl + el + cl;
            proof {
                let rest_result = cd_walk(
                    self.data@,
                    next as int,
                    (remaining - 1) as nat,
                    self.encoding,
                    self.fallback,
                );
                match rest_result {
                    Ok(rest) => {
                        assert(entry_views(prev_out) + (seq![
                            EntryModel {
                                name: header.file_name@,
                                uncompressed_size: size,
                                general_purpose_bit_flag: flags@,
                            },
                        ] + rest) =~= entry_views(out@) + rest);
                    },
                    Err(_) => {},
                }
            }
            cur = next;
            i = i + 1;
        }
        proof {
            assert(entry_views(out@) + Seq::<EntryModel>::empty() =~= entry_views(out@));
            lemma_cd_walk_count(
                self.data@,
                start as int,
                count as nat,
                self.encoding,
                self.fallback,
            );
        }
        Ok(out)
    }

    /// The flag bit that declares the stored name to be UTF-8.
    fn is_utf8(general_purpose_bit_flag: [u8; 2]) -> (r: bool)
        ensures
            r == is_utf8_flag(general_purpose_bit_flag@),
    {
        (general_purpose_bit_flag[0] >> 5) & 1 == 1
    }
}

} // verus!
