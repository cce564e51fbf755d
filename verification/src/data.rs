//! Decoded pack entries: the input of the index writer.
//!
//! Also defines the on-pack encoding of an entry's header, which the CRC32
//! integrity codes of the index are computed over.

use vstd::arithmetic::div_mod::lemma_multiply_divide_lt;
use vstd::arithmetic::power2::{lemma2_to64, lemma_pow2_adds, lemma_pow2_strictly_increases, pow2};
use vstd::prelude::*;

verus! {

/// The kind of a base (non-delta) object.
#[derive(Clone, Copy, PartialEq, Eq, Structural, Debug)]
pub enum BaseKind {
    Commit,
    Tree,
    Blob,
    Tag,
}

/// The decoded header of a pack entry.
pub enum Header {
    Commit,
    Tree,
    Blob,
    Tag,
    /// A delta against the object identified by its content hash.
    RefDelta { base_id: Vec<u8> },
    /// A delta against the object whose entry starts at the given absolute
    /// pack offset.
    OfsDelta { base_pack_offset: u64 },
}

impl Header {
    /// Whether this header introduces a base object.
    pub open spec fn is_base(self) -> bool {
        match self {
            Header::Commit | Header::Tree | Header::Blob | Header::Tag => true,
            _ => false,
        }
    }

    pub open spec fn spec_to_kind(self) -> Option<BaseKind> {
        match self {
            Header::Commit => Some(BaseKind::Commit),
            Header::Tree => Some(BaseKind::Tree),
            Header::Blob => Some(BaseKind::Blob),
            Header::Tag => Some(BaseKind::Tag),
            _ => None,
        }
    }

    /// The object kind of a base header; `None` for deltas.
    pub fn to_kind(&self) -> (r: Option<BaseKind>)
        ensures
            r == self.spec_to_kind(),
    {
        match self {
            Header::Commit => Some(BaseKind::Commit),
            Header::Tree => Some(BaseKind::Tree),
            Header::Blob => Some(BaseKind::Blob),
            Header::Tag => Some(BaseKind::Tag),
            _ => None,
        }
    }
}

/// One decoded pack entry, in stream order.
pub struct Entry {
    pub header: Header,
    /// Byte offset of the entry's header within the pack.
    pub pack_offset: u64,
    /// The compressed payload as it stands in the pack.
    pub compressed: Vec<u8>,
    /// The payload after inflation (for deltas: the delta instruction
    /// stream).
    pub decompressed: Vec<u8>,
    /// The pack's trailing content hash; present only on the final entry.
    pub trailer: Option<Vec<u8>>,
}

/// Code of an object kind in the on-pack entry header.
pub open spec fn kind_code(h: Header) -> int {
    match h {
        Header::Commit => 1,
        Header::Tree => 2,
        Header::Blob => 3,
        Header::Tag => 4,
        Header::OfsDelta { .. } => 6,
        Header::RefDelta { .. } => 7,
    }
}

/// Continuation bytes of the size field, 7 bits per byte, least significant
/// group first.
pub open spec fn size_tail_bytes(n: int) -> Seq<u8>
    decreases n,
{
    if n <= 0 {
        Seq::empty()
    } else if n < 128 {
        seq![n as u8]
    } else {
        seq![(128 + n % 128) as u8] + size_tail_bytes(n / 128)
    }
}

/// All bytes but the last of the encoded base-offset distance; each carries a
/// continuation bit and the encoding offsets each group by one.
pub open spec fn ofs_head_bytes(d: int) -> Seq<u8>
    decreases d,
{
    if d < 0 {
        Seq::empty()
    } else if d < 128 {
        seq![(128 + d) as u8]
    } else {
        ofs_head_bytes(d / 128 - 1) + seq![(128 + d % 128) as u8]
    }
}

/// The encoded distance from a delta entry back to its base, most significant
/// group first.
pub open spec fn ofs_dist_bytes(d: int) -> Seq<u8> {
    if d < 128 {
        seq![d as u8]
    } else {
        ofs_head_bytes(d / 128 - 1) + seq![(d % 128) as u8]
    }
}

/// The on-pack bytes of an entry's header: kind and inflated size packed into
/// a varint, followed by the base reference for deltas.
pub open spec fn entry_header_bytes(h: Header, size: int, pack_offset: int) -> Seq<u8> {
    let cont: int = if size / 16 > 0 {
        128
    } else {
        0
    };
    seq![(cont + kind_code(h) * 16 + size % 16) as u8] + size_tail_bytes(size / 16) + (match h {
        Header::OfsDelta { base_pack_offset } => ofs_dist_bytes(pack_offset - base_pack_offset),
        Header::RefDelta { base_id } => base_id@,
        _ => Seq::empty(),
    })
}

/// The bytes an entry occupies in the pack: its header followed by the
/// compressed payload.
pub open spec fn on_pack_bytes(e: Entry) -> Seq<u8> {
    entry_header_bytes(e.header, e.decompressed@.len() as int, e.pack_offset as int)
        + e.compressed@
}

proof fn lemma_size_tail_len(n: int, k: nat)
    requires
        0 <= n < pow2(7 * k),
    ensures
        size_tail_bytes(n).len() <= k,
    decreases k,
{
    if n == 0 {
    } else if n < 128 {
        assert(k >= 1) by {
            if k == 0 {
                assert(pow2(0) == 1) by {
                    lemma2_to64();
                }
            }
        }
    } else {
        assert(k >= 1) by {
            if k == 0 {
                assert(pow2(0) == 1) by {
                    lemma2_to64();
                }
            }
        }
        lemma_pow2_adds(7, (7 * k - 7) as nat);
        assert(pow2(7) == 128) by {
            lemma2_to64();
        }
        lemma_multiply_divide_lt(n, 128, pow2((7 * k - 7) as nat) as int);
        lemma_size_tail_len(n / 128, (k - 1) as nat);
    }
}

proof fn lemma_ofs_head_len(d: int, k: nat)
    requires
        d < pow2(7 * k),
    ensures
        ofs_head_bytes(d).len() <= k + 1,
    decreases k,
{
    if d < 128 {
    } else {
        assert(k >= 1) by {
            if k == 0 {
                assert(pow2(0) == 1) by {
                    lemma2_to64();
                }
            }
        }
        lemma_pow2_adds(7, (7 * k - 7) as nat);
        assert(pow2(7) == 128) by {
            lemma2_to64();
        }
        lemma_multiply_divide_lt(d, 128, pow2((7 * k - 7) as nat) as int);
        lemma_ofs_head_len(d / 128 - 1, (k - 1) as nat);
    }
}

/// The encoded header of a 64-bit sized entry is short.
pub proof fn lemma_header_len(h: Header, size: int, pack_offset: int)
    requires
        0 <= size < 0x1_0000_0000_0000_0000,
        0 <= pack_offset < 0x1_0000_0000_0000_0000,
        !(h matches Header::RefDelta { .. }),
    ensures
        entry_header_bytes(h, size, pack_offset).len() <= 23,
{
    assert(pow2(70) > 0x1_0000_0000_0000_0000) by {
        lemma2_to64();
        lemma_pow2_strictly_increases(64, 70);
    }
    lemma_size_tail_len(size / 16, 10);
    assert(size / 16 < pow2(70)) by {
        assert(size / 16 <= size);
    }
    match h {
        Header::OfsDelta { base_pack_offset } => {
            let d = pack_offset - base_pack_offset;
            if d >= 128 {
                lemma_ofs_head_len(d / 128 - 1, 10);
            }
        },
        _ => {},
    }
}

fn push_size_tail(out: &mut Vec<u8>, n: u64)
    ensures
        final(out)@ == old(out)@ + size_tail_bytes(n as int),
    decreases n,
{
    if n == 0 {
        assert(out@ =~= out@ + size_tail_bytes(0));
    } else if n < 128 {
        out.push(n as u8);
    } else {
        out.push((128 + n % 128) as u8);
        push_size_tail(out, n / 128);
        assert(out@ =~= old(out)@ + size_tail_bytes(n as int));
    }
}

fn push_ofs_head(out: &mut Vec<u8>, d: u64)
    ensures
        final(out)@ == old(out)@ + ofs_head_bytes(d as int),
    decreases d,
{
    if d < 128 {
        out.push((128 + d) as u8);
    } else {
        push_ofs_head(out, d / 128 - 1);
        out.push((128 + d % 128) as u8);
        assert(out@ =~= old(out)@ + ofs_head_bytes(d as int));
    }
}

/// Re-encode an entry's on-pack header from its decoded form.
pub fn encode_entry_header(h: &Header, size: u64, pack_offset: u64) -> (r: Vec<u8>)
    requires
        !(h matches Header::RefDelta { .. }),
        h matches Header::OfsDelta { base_pack_offset } ==> base_pack_offset < pack_offset,
    ensures
        r@ == entry_header_bytes(*h, size as int, pack_offset as int),
        r@.len() <= 23,
{
    proof {
        lemma_header_len(*h, size as int, pack_offset as int);
    }
    let mut out: Vec<u8> = Vec::new();
    let code: u64 = match h {
        Header::Commit => 1,
        Header::Tree => 2,
        Header::Blob => 3,
        Header::Tag => 4,
        Header::OfsDelta { .. } => 6,
        Header::RefDelta { .. } => 7,
    };
    let cont: u64 = if size / 16 > 0 {
        128
    } else {
        0
    };
    out.push((cont + code * 16 + size % 16) as u8);
    push_size_tail(&mut out, size / 16);
    match h {
        Header::OfsDelta { base_pack_offset } => {
            let d: u64 = pack_offset - *base_pack_offset;
            if d < 128 {
                out.push(d as u8);
            } else {
                push_ofs_head(&mut out, d / 128 - 1);
                out.push((d % 128) as u8);
            }
        },
        _ => {},
    }
    assert(out@ =~= entry_header_bytes(*h, size as int, pack_offset as int));
    out
}

} // verus!
