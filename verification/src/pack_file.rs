//! Access to a pack data file held in memory: its header and the inflation
//! of single entries.

use crate::data::Header;
use crate::hashing::{inflate, inflated_of};
use vstd::prelude::*;

verus! {

/// The version of a pack data file.
#[derive(Clone, Copy, PartialEq, Eq, Structural, Debug, Hash)]
pub enum Kind {
    V2,
    V3,
}

/// One entry of the pack, located and decoded as far as its header.
pub struct Entry {
    pub header: Header,
    /// The decompressed size of the object in bytes.
    pub size: u64,
    /// Absolute offset of the compressed object data in the pack.
    pub offset: u64,
}

/// What can go wrong reading a pack file held in memory.
#[derive(Clone, Copy, PartialEq, Eq, Structural, Debug)]
pub enum Error {
    /// The bytes are no pack file, or too short for one.
    Corrupt,
    /// The pack names a version this crate does not read.
    UnsupportedVersion(u32),
    /// An entry's zlib stream did not inflate.
    ZlibInflate,
}

/// A big-endian 32-bit word at position `i`.
pub open spec fn be32_at(d: Seq<u8>, i: int) -> int {
    d[i] * 0x100_0000 + d[i + 1] * 0x1_0000 + d[i + 2] * 0x100 + d[i + 3]
}

/// What the first bytes of a pack say: its version and object count.
pub open spec fn parse_pack_header(d: Seq<u8>) -> Result<(Kind, u32), Error> {
    if d.len() < 32 {
        Err(Error::Corrupt)
    } else if !(d[0] == 80 && d[1] == 65 && d[2] == 67 && d[3] == 75) {
        Err(Error::Corrupt)
    } else if be32_at(d, 4) == 2 {
        Ok((Kind::V2, be32_at(d, 8) as u32))
    } else if be32_at(d, 4) == 3 {
        Ok((Kind::V3, be32_at(d, 8) as u32))
    } else {
        Err(Error::UnsupportedVersion(be32_at(d, 4) as u32))
    }
}

/// A pack data file held in memory.
#[derive(Debug)]
pub struct File {
    data: Vec<u8>,
    kind: Kind,
    num_objects: u32,
}

impl File {
    pub closed spec fn spec_data(&self) -> Seq<u8> {
        self.data@
    }

    pub closed spec fn spec_kind(&self) -> Kind {
        self.kind
    }

    pub closed spec fn spec_num_objects(&self) -> u32 {
        self.num_objects
    }

    /// Take a pack over from its bytes, checking magic and version; the
    /// counterpart of opening the file on disk.
    pub fn from_bytes(data: Vec<u8>) -> (r: Result<File, Error>)
        ensures
            match r {
                Ok(f) => parse_pack_header(data@) == Ok::<_, Error>(
                    (f.spec_kind(), f.spec_num_objects()),
                ) && f.spec_data() == data@,
                Err(e) => parse_pack_header(data@) == Err::<(Kind, u32), _>(e),
            },
    {
        if data.len() < 32 {
            return Err(Error::Corrupt);
        }
        if !(data[0] == 80 && data[1] == 65 && data[2] == 67 && data[3] == 75) {
            return Err(Error::Corrupt);
        }
        let version: u64 = data[4] as u64 * 0x100_0000 + data[5] as u64 * 0x1_0000 + data[6] as u64
            * 0x100 + data[7] as u64;
        let num_objects: u64 = data[8] as u64 * 0x100_0000 + data[9] as u64 * 0x1_0000 + data[10]
            as u64 * 0x100 + data[11] as u64;
        let kind = if version == 2 {
            Kind::V2
        } else if version == 3 {
            Kind::V3
        } else {
            return Err(Error::UnsupportedVersion(version as u32));
        };
        Ok(File { data, kind, num_objects: num_objects as u32 })
    }

    pub fn kind(&self) -> (r: Kind)
        ensures
            r == self.spec_kind(),
    {
        self.kind
    }

    pub fn num_objects(&self) -> (r: u32)
        ensures
            r == self.spec_num_objects(),
    {
        self.num_objects
    }

    /// Inflate a base entry's bytes into `out`. Delta entries must be
    /// resolved through the index writer instead.
    pub fn decode_entry(&self, entry: &Entry, out: &mut Vec<u8>) -> (r: Result<(), Error>)
        requires
            entry.header.is_base(),
            entry.offset <= self.spec_data().len(),
        ensures
            match r {
                Ok(_) => inflated_of(
                    self.spec_data().subrange(
                        entry.offset as int,
                        self.spec_data().len() as int,
                    ),
                ) == Some(final(out)@),
                Err(e) => e == Error::ZlibInflate && inflated_of(
                    self.spec_data().subrange(
                        entry.offset as int,
                        self.spec_data().len() as int,
                    ),
                ) is None,
            },
    {
        let dl: usize = self.data.len();
        assert(entry.offset <= dl as u64);
        let ofs: usize = entry.offset as usize;
        let tail = slice_tail(&self.data, ofs);
        match inflate(tail.as_slice()) {
            Some(v) => {
                let ghost v0 = v@;
                let mut v = v;
                out.clear();
                out.append(&mut v);
                proof {
                    assert(out@ =~= v0);
                }
                Ok(())
            },
            None => Err(Error::ZlibInflate),
        }
    }
}

/// Copy the bytes from position `at` on.
fn slice_tail(v: &Vec<u8>, at: usize) -> (r: Vec<u8>)
    requires
        at <= v@.len(),
    ensures
        r@ == v@.subrange(at as int, v@.len() as int),
{
    let mut r: Vec<u8> = Vec::new();
    let mut k = at;
    while k < v.len()
        invariant
            at <= k <= v@.len(),
            r@ == v@.subrange(at as int, k as int),
        decreases v@.len() - k,
    {
        r.push(v[k]);
        assert(r@ =~= v@.subrange(at as int, k as int + 1));
        k = k + 1;
    }
    assert(r@ =~= v@.subrange(at as int, v@.len() as int));
    r
}

} // verus!
