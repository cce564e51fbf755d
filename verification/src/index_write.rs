//! Writing a pack index from an ordered stream of decoded entries.
//!
//! The stream is ingested once under structural validation, every delta chain
//! is resolved to the object's full bytes through an offset-keyed cache with
//! child-reference counts, each object is hashed, and the sorted,
//! fan-out-indexed lookup table is encoded.

use crate::data;
use crate::data::{encode_entry_header, BaseKind, Header};
use crate::delta::apply_delta_spec;
use crate::hashing::crc32_of;
use crate::hashing::sha1_of;
use vstd::prelude::*;

verus! {

/// The version of the index format to write.
#[derive(Clone, Copy, PartialEq, Eq, Structural, Debug)]
pub enum Kind {
    V1,
    V2,
}

impl Default for Kind {
    /// The primary, and only supported, index version.
    fn default() -> (r: Self)
        ensures
            r == Kind::V2,
    {
        Kind::V2
    }
}

/// What an entry record remembers of its header.
#[derive(Clone, Copy, PartialEq, Eq, Structural, Debug)]
pub enum ObjectKind {
    Base(BaseKind),
    OfsDelta(u64),
}

impl ObjectKind {
    pub open spec fn spec_is_base(self) -> bool {
        self matches ObjectKind::Base(_)
    }

    pub fn is_base(&self) -> (r: bool)
        ensures
            r == self.spec_is_base(),
    {
        match self {
            ObjectKind::Base(_) => true,
            _ => false,
        }
    }
}

/// One record per object, kept for the whole build.
#[derive(Clone, Copy, PartialEq, Eq, Structural, Debug)]
pub struct Entry {
    pub pack_offset: u64,
    pub entry_len: u64,
    pub kind: ObjectKind,
    pub crc32: u32,
}

/// How the cache keeps an entry's bytes around.
#[derive(Clone, Copy, PartialEq, Eq, Structural, Debug)]
pub enum Mode {
    /// Keep only the decompressed bytes.
    InMemory,
    /// Keep the compressed bytes besides the decompressed ones.
    InMemoryDecompressed,
}

/// Bytes for one pack offset plus the number of its not-yet-resolved direct
/// dependents; the bytes are dropped at the first moment the entry itself is
/// resolved and no unresolved dependent is left.
pub struct CacheEntry {
    pub compressed: Option<Vec<u8>>,
    pub decompressed: Option<Vec<u8>>,
    pub child_count: u64,
    pub resolved: bool,
}

impl CacheEntry {
    pub fn increment_child_count(&mut self)
        requires
            old(self).child_count < u64::MAX,
        ensures
            *final(self) == (CacheEntry { child_count: (old(self).child_count + 1) as u64,
                ..*old(self) }),
    {
        self.child_count = self.child_count + 1;
    }

    pub fn decrement_child_count(&mut self)
        requires
            old(self).child_count > 0,
        ensures
            *final(self) == (CacheEntry { child_count: (old(self).child_count - 1) as u64,
                ..*old(self) }),
    {
        self.child_count = self.child_count - 1;
    }
}

impl Mode {
    /// The cache slot installed for a base entry.
    pub fn base_cache(&self, compressed: Vec<u8>, decompressed: Vec<u8>) -> (r: CacheEntry)
        ensures
            r.decompressed matches Some(d) && d@ == decompressed@,
            r.child_count == 0,
            !r.resolved,
    {
        CacheEntry {
            compressed: match self {
                Mode::InMemoryDecompressed => Some(compressed),
                Mode::InMemory => None,
            },
            decompressed: Some(decompressed),
            child_count: 0,
            resolved: false,
        }
    }

    /// The cache slot installed for a delta entry.
    pub fn delta_cache(&self, compressed: Vec<u8>, decompressed: Vec<u8>) -> (r: CacheEntry)
        ensures
            r.decompressed matches Some(d) && d@ == decompressed@,
            r.child_count == 0,
            !r.resolved,
    {
        CacheEntry {
            compressed: match self {
                Mode::InMemoryDecompressed => Some(compressed),
                Mode::InMemory => None,
            },
            decompressed: Some(decompressed),
            child_count: 0,
            resolved: false,
        }
    }
}

/// One resolved object: its pack offset, object id and CRC32 code.
pub struct IdTuple {
    pub pack_offset: u64,
    pub oid: Vec<u8>,
    pub crc32: u32,
}

/// The mathematical value of an [`IdTuple`].
pub open spec fn tv(t: IdTuple) -> (u64, Seq<u8>, u32) {
    (t.pack_offset, t.oid@, t.crc32)
}

/// What a successful build reports.
#[derive(Debug)]
pub struct Outcome {
    pub index_kind: Kind,
    pub index_hash: Vec<u8>,
    pub pack_hash: Vec<u8>,
    pub num_objects: u32,
}

/// Everything that can go wrong while building an index.
#[derive(Clone, Copy, PartialEq, Eq, Structural, Debug)]
pub enum Error {
    /// The requested index version is not supported.
    Unsupported(Kind),
    /// The input stream held no entry at all.
    IteratorInvariantNonEmpty,
    /// Pack offsets must increase strictly; the previous and the offending
    /// offset.
    IteratorInvariantIncreasingPackOffset(u64, u64),
    /// Deltas against an object named by hash must be resolved upstream.
    IteratorInvariantNoRefDelta,
    /// An offset delta referenced a base that has not appeared yet; the
    /// delta's and the missing base's offsets.
    IteratorInvariantBasesBeforeDeltasNeedThem(u64, u64),
    /// The stream held deltas only.
    IteratorInvariantBasesPresent,
    /// The object count does not fit the index format's 32-bit counters.
    IteratorInvariantTooManyObjects(usize),
    /// The final entry carried no pack trailer.
    IteratorInvariantTrailer,
    /// A delta stream could not be applied to its base; the delta's offset.
    DeltaApplication(u64),
    /// The resolved objects did not add up to the ingested count.
    ObjectCountMismatch,
}

// ---------------------------------------------------------------------------
// The specification model of the stream.
// ---------------------------------------------------------------------------
/// The base an entry's header refers back to, if it is an offset delta.
pub open spec fn base_ref(h: Header) -> Option<u64> {
    match h {
        Header::OfsDelta { base_pack_offset } => Some(base_pack_offset),
        _ => None,
    }
}

pub open spec fn is_base_at(es: Seq<data::Entry>, i: int) -> bool {
    es[i].header.is_base()
}

pub open spec fn prev_ofs(es: Seq<data::Entry>, i: int) -> int {
    if i == 0 {
        0
    } else {
        es[i - 1].pack_offset as int
    }
}

pub open spec fn has_offset_before(es: Seq<data::Entry>, i: int, b: u64) -> bool {
    exists|j: int| 0 <= j < i && es[j].pack_offset == b
}

/// The structural invariants that ingestion establishes: offsets increase
/// strictly, no reference deltas, and every delta's base offset was seen
/// earlier.
pub open spec fn wf_model(es: Seq<data::Entry>) -> bool {
    &&& forall|i: int| 0 <= i < es.len() ==> (#[trigger] es[i].pack_offset) as int > prev_ofs(
        es,
        i,
    )
    &&& forall|i: int|
        0 <= i < es.len() ==> match base_ref(#[trigger] es[i].header) {
            Some(b) => has_offset_before(es, i, b),
            None => es[i].header.is_base(),
        }
}

/// The first index at or after `from` whose entry starts at offset `b`, or
/// `-1`.
pub open spec fn find_ofs_from(es: Seq<data::Entry>, b: u64, from: int) -> int
    decreases es.len() - from,
{
    if from < 0 || from >= es.len() {
        -1
    } else if es[from].pack_offset == b {
        from
    } else {
        find_ofs_from(es, b, from + 1)
    }
}

pub open spec fn find_ofs(es: Seq<data::Entry>, b: u64) -> int {
    find_ofs_from(es, b, 0)
}

/// Entry `j` is a direct dependent of entry `i`.
pub open spec fn dep(es: Seq<data::Entry>, j: int, i: int) -> bool {
    &&& 0 <= j < es.len()
    &&& 0 <= i < es.len()
    &&& base_ref(es[j].header) == Some(es[i].pack_offset)
}

/// The fully materialized bytes of entry `i`: its own inflated bytes for a
/// base, the delta applied to the parent's materialized bytes otherwise.
pub open spec fn materialized(es: Seq<data::Entry>, i: int) -> Option<Seq<u8>>
    decreases i,
{
    match base_ref(es[i].header) {
        None => Some(es[i].decompressed@),
        Some(b) => {
            let p = find_ofs(es, b);
            if 0 <= p < i {
                match materialized(es, p) {
                    None => None,
                    Some(pb) => apply_delta_spec(pb, es[i].decompressed@),
                }
            } else {
                None
            }
        },
    }
}

/// The object kind of entry `i`; a delta inherits its base's kind.
pub open spec fn okind(es: Seq<data::Entry>, i: int) -> BaseKind
    decreases i,
{
    match es[i].header.spec_to_kind() {
        Some(k) => k,
        None => {
            match base_ref(es[i].header) {
                Some(b) => {
                    let p = find_ofs(es, b);
                    if 0 <= p < i {
                        okind(es, p)
                    } else {
                        BaseKind::Blob
                    }
                },
                None => BaseKind::Blob,
            }
        },
    }
}

/// The name of an object kind as it stands in the canonical representation.
pub open spec fn kind_name(k: BaseKind) -> Seq<u8> {
    match k {
        BaseKind::Commit => seq![99u8, 111u8, 109u8, 109u8, 105u8, 116u8],
        BaseKind::Tree => seq![116u8, 114u8, 101u8, 101u8],
        BaseKind::Blob => seq![98u8, 108u8, 111u8, 98u8],
        BaseKind::Tag => seq![116u8, 97u8, 103u8],
    }
}

/// The decimal digits of `n`.
pub open spec fn dec_digits(n: int) -> Seq<u8>
    decreases n,
{
    if n < 10 {
        seq![(48 + if n < 0 { 0int } else { n }) as u8]
    } else {
        dec_digits(n / 10) + seq![(48 + n % 10) as u8]
    }
}

/// The canonical object header: kind name, a space, the decimal length and a
/// NUL byte.
pub open spec fn loose_header(k: BaseKind, len: int) -> Seq<u8> {
    kind_name(k) + seq![32u8] + dec_digits(len) + seq![0u8]
}

/// The object id of entry `i`: the digest of its canonical representation.
pub open spec fn oid_of(es: Seq<data::Entry>, i: int) -> Seq<u8> {
    match materialized(es, i) {
        Some(m) => sha1_of(loose_header(okind(es, i), m.len() as int) + m),
        None => Seq::empty(),
    }
}

/// The tuple the resolver emits for entry `i`; its CRC32 is filled in later
/// from the entry table.
pub open spec fn tuple_of(es: Seq<data::Entry>, i: int) -> (u64, Seq<u8>, u32) {
    (es[i].pack_offset, oid_of(es, i), 0u32)
}

/// Entry `k` lies in the resolution subtree rooted at entry `root`.
pub open spec fn in_subtree(es: Seq<data::Entry>, root: int, k: int) -> bool
    decreases k,
{
    if k == root {
        true
    } else if k <= root {
        false
    } else {
        match base_ref(es[k].header) {
            None => false,
            Some(b) => {
                let p = find_ofs(es, b);
                &&& 0 <= p < k
                &&& in_subtree(es, root, p)
            },
        }
    }
}

/// The direct dependent of `i` through which the path from `i` down to `k`
/// passes; `-1` if `k` is not strictly below `i`.
pub open spec fn cpath(es: Seq<data::Entry>, i: int, k: int) -> int
    decreases k,
{
    if !in_subtree(es, i, k) || k == i {
        -1
    } else {
        match base_ref(es[k].header) {
            None => -1,
            Some(b) => {
                let p = find_ofs(es, b);
                if p == i {
                    k
                } else {
                    cpath(es, i, p)
                }
            },
        }
    }
}

/// The tuples the resolver emits for the subtree of entry `i`, in
/// depth-first order.
pub open spec fn emit(es: Seq<data::Entry>, i: int) -> Seq<(u64, Seq<u8>, u32)>
    decreases es.len() - i, es.len() + 1 - i,
{
    seq![tuple_of(es, i)] + (if 0 <= i < es.len() {
        emit_children(es, i, i + 1)
    } else {
        Seq::empty()
    })
}

pub open spec fn emit_children(es: Seq<data::Entry>, i: int, from: int) -> Seq<(u64, Seq<u8>, u32)>
    decreases es.len() - i, es.len() - from,
{
    if from >= es.len() || from <= i {
        Seq::empty()
    } else {
        (if dep(es, from, i) {
            emit(es, from)
        } else {
            Seq::empty()
        }) + emit_children(es, i, from + 1)
    }
}

/// The tuples of all base subtrees among the first `upto` entries, in order
/// of the bases.
pub open spec fn emit_range(es: Seq<data::Entry>, upto: int) -> Seq<(u64, Seq<u8>, u32)>
    decreases upto,
{
    if upto <= 0 {
        Seq::empty()
    } else {
        emit_range(es, upto - 1) + (if is_base_at(es, upto - 1) {
            emit(es, upto - 1)
        } else {
            Seq::empty()
        })
    }
}

/// The index of the last base among the first `upto` entries, or `-1`.
pub open spec fn last_base(es: Seq<data::Entry>, upto: int) -> int
    decreases upto,
{
    if upto <= 0 {
        -1
    } else if is_base_at(es, upto - 1) {
        upto - 1
    } else {
        last_base(es, upto - 1)
    }
}


// ---------------------------------------------------------------------------
// Structure lemmas.
// ---------------------------------------------------------------------------
/// Offsets increase strictly across any pair of positions.
pub proof fn lemma_mono(es: Seq<data::Entry>, a: int, b: int)
    requires
        wf_model(es),
        0 <= a < b < es.len(),
    ensures
        es[a].pack_offset < es[b].pack_offset,
    decreases b - a,
{
    assert(es[b].pack_offset as int > prev_ofs(es, b));
    if a < b - 1 {
        lemma_mono(es, a, b - 1);
    }
}

pub proof fn lemma_find_from(es: Seq<data::Entry>, b: u64, from: int)
    requires
        0 <= from,
    ensures
        find_ofs_from(es, b, from) == -1 ==> forall|j: int|
            from <= j < es.len() ==> es[j].pack_offset != b,
        find_ofs_from(es, b, from) != -1 ==> from <= find_ofs_from(es, b, from) < es.len()
            && es[find_ofs_from(es, b, from)].pack_offset == b && forall|j: int|
            from <= j < find_ofs_from(es, b, from) ==> es[j].pack_offset != b,
    decreases es.len() - from,
{
    if from < es.len() && es[from].pack_offset != b {
        lemma_find_from(es, b, from + 1);
    }
}

/// Looking up an entry's own offset finds that entry.
pub proof fn lemma_find_self(es: Seq<data::Entry>, i: int)
    requires
        wf_model(es),
        0 <= i < es.len(),
    ensures
        find_ofs(es, es[i].pack_offset) == i,
{
    let b = es[i].pack_offset;
    lemma_find_from(es, b, 0);
    let r = find_ofs(es, b);
    assert(r != -1);
    if r < i {
        lemma_mono(es, r, i);
    }
    if r > i {
        assert(es[i].pack_offset != b);
    }
}

/// A dependent's parent index: below the dependent, and what lookup finds.
pub proof fn lemma_dep_parent(es: Seq<data::Entry>, j: int, i: int)
    requires
        wf_model(es),
        dep(es, j, i),
    ensures
        i < j,
        find_ofs(es, es[i].pack_offset) == i,
{
    lemma_find_self(es, i);
    let b = es[i].pack_offset;
    assert(has_offset_before(es, j, b));
    let jj = choose|jj: int| 0 <= jj < j && es[jj].pack_offset == b;
    if jj != i {
        if jj < i {
            lemma_mono(es, jj, i);
        } else {
            lemma_mono(es, i, jj);
        }
    }
}

/// A base can only stand at the root of a subtree it belongs to.
pub proof fn lemma_subtree_base(es: Seq<data::Entry>, root: int, k: int)
    requires
        wf_model(es),
        in_subtree(es, root, k),
        0 <= k < es.len(),
        is_base_at(es, k),
    ensures
        k == root,
{
    if k != root {
        assert(base_ref(es[k].header) is None);
    }
}

/// Walking one dependent edge down extends a subtree, and fixes the child
/// through which the path passes.
pub proof fn lemma_subtree_step(es: Seq<data::Entry>, i: int, j: int, k: int)
    requires
        wf_model(es),
        dep(es, j, i),
        in_subtree(es, j, k),
        0 <= k < es.len(),
    ensures
        in_subtree(es, i, k),
        cpath(es, i, k) == j,
    decreases k,
{
    lemma_dep_parent(es, j, i);
    if k == j {
        assert(j > i);
        assert(base_ref(es[j].header) == Some(es[i].pack_offset));
        assert(find_ofs(es, base_ref(es[j].header)->Some_0) == i);
        assert(in_subtree(es, i, i));
        assert(in_subtree(es, i, k));
    } else {
        let p = find_ofs(es, base_ref(es[k].header)->Some_0);
        assert(in_subtree(es, j, p));
        assert(p >= j);
        lemma_subtree_step(es, i, j, p);
    }
}

/// The child on the path from `i` to a strict descendant `k` is a direct
/// dependent of `i` whose subtree holds `k`.
pub proof fn lemma_cpath_props(es: Seq<data::Entry>, i: int, k: int)
    requires
        wf_model(es),
        in_subtree(es, i, k),
        0 <= i,
        0 <= k < es.len(),
        k != i,
    ensures
        dep(es, cpath(es, i, k), i),
        in_subtree(es, cpath(es, i, k), k),
        i < cpath(es, i, k) <= k,
    decreases k,
{
    let b = base_ref(es[k].header)->Some_0;
    let p = find_ofs(es, b);
    lemma_find_from(es, b, 0);
    if p == i {
        assert(cpath(es, i, k) == k);
        assert(in_subtree(es, k, k));
    } else {
        lemma_cpath_props(es, i, p);
        let c = cpath(es, i, p);
        assert(in_subtree(es, c, k)) by {
            assert(in_subtree(es, c, p));
            assert(c <= p < k);
        }
    }
}

/// Subtrees of distinct bases share no entry.
pub proof fn lemma_subtree_disjoint(es: Seq<data::Entry>, r1: int, r2: int, k: int)
    requires
        wf_model(es),
        0 <= r1 < es.len(),
        0 <= r2 < es.len(),
        is_base_at(es, r1),
        is_base_at(es, r2),
        r1 != r2,
        0 <= k < es.len(),
        in_subtree(es, r1, k),
    ensures
        !in_subtree(es, r2, k),
    decreases k,
{
    if in_subtree(es, r2, k) {
        if k == r1 {
            lemma_subtree_base(es, r2, k);
        } else if k == r2 {
            lemma_subtree_base(es, r1, k);
        } else {
            let p = find_ofs(es, base_ref(es[k].header)->Some_0);
            lemma_subtree_disjoint(es, r1, r2, p);
        }
    }
}

/// Every entry lies in the subtree of some base at or before it.
pub proof fn lemma_coverage(es: Seq<data::Entry>, k: int)
    requires
        wf_model(es),
        0 <= k < es.len(),
    ensures
        exists|b: int|
            0 <= b <= k && #[trigger] is_base_at(es, b) && #[trigger] in_subtree(es, b, k),
    decreases k,
{
    if is_base_at(es, k) {
        assert(in_subtree(es, k, k));
    } else {
        let bofs = base_ref(es[k].header)->Some_0;
        let p = find_ofs(es, bofs);
        lemma_find_from(es, bofs, 0);
        let jj = choose|jj: int| 0 <= jj < k && es[jj].pack_offset == bofs;
        assert(p != -1);
        assert(0 <= p);
        assert(p <= jj) by {
            if p > jj {
                assert(es[jj].pack_offset != bofs);
            }
        }
        lemma_coverage(es, p);
        let b = choose|b: int| 0 <= b <= p && #[trigger] is_base_at(es, b) && #[trigger] in_subtree(es, b, p);
        assert(in_subtree(es, b, k));
    }
}

/// No base among the first `upto` entries stands after `last_base`.
pub proof fn lemma_last_base_max(es: Seq<data::Entry>, b: int, upto: int)
    requires
        0 <= b < upto <= es.len(),
        is_base_at(es, b),
    ensures
        b <= last_base(es, upto) < upto,
        is_base_at(es, last_base(es, upto)),
    decreases upto,
{
    if !is_base_at(es, upto - 1) {
        lemma_last_base_max(es, b, upto - 1);
    }
}

// ---------------------------------------------------------------------------
// The entry table and the cache, as the resolver relies on them.
// ---------------------------------------------------------------------------
pub open spec fn kind_map(h: Header) -> ObjectKind {
    match h {
        Header::Commit => ObjectKind::Base(BaseKind::Commit),
        Header::Tree => ObjectKind::Base(BaseKind::Tree),
        Header::Blob => ObjectKind::Base(BaseKind::Blob),
        Header::Tag => ObjectKind::Base(BaseKind::Tag),
        Header::OfsDelta { base_pack_offset } => ObjectKind::OfsDelta(base_pack_offset),
        Header::RefDelta { .. } => ObjectKind::Base(BaseKind::Blob),
    }
}

/// The record the entry table holds for input entry `k`.
pub open spec fn record_of(e: data::Entry) -> Entry {
    Entry {
        pack_offset: e.pack_offset,
        entry_len: data::on_pack_bytes(e).len() as u64,
        kind: kind_map(e.header),
        crc32: crc32_of(data::on_pack_bytes(e)),
    }
}

pub open spec fn table_matches(es: Seq<data::Entry>, t: Seq<Entry>) -> bool {
    &&& t.len() == es.len()
    &&& forall|k: int| 0 <= k < es.len() ==> #[trigger] t[k] == record_of(es[k])
}

/// The number of unresolved direct dependents of entry `k` among the first
/// `upto` entries.
pub open spec fn n_unres(es: Seq<data::Entry>, cs: Seq<CacheEntry>, k: int, upto: int) -> int
    decreases upto,
{
    if upto <= 0 {
        0
    } else {
        n_unres(es, cs, k, upto - 1) + if dep(es, upto - 1, k) && !cs[upto - 1].resolved {
            1int
        } else {
            0int
        }
    }
}

/// How many of the first `upto` entries are resolved.
pub open spec fn n_resolved(cs: Seq<CacheEntry>, upto: int) -> int
    decreases upto,
{
    if upto <= 0 {
        0
    } else {
        n_resolved(cs, upto - 1) + if cs[upto - 1].resolved {
            1int
        } else {
            0int
        }
    }
}

/// The discipline of one cache slot: its bytes are the entry's inflated
/// bytes, dropped exactly when the entry is resolved and no unresolved
/// dependent is left, and the child count tracks the unresolved dependents.
pub open spec fn slot_ok(es: Seq<data::Entry>, cs: Seq<CacheEntry>, k: int) -> bool {
    &&& (cs[k].decompressed is None <==> (cs[k].resolved && cs[k].child_count == 0))
    &&& (cs[k].decompressed matches Some(d) ==> d@ == es[k].decompressed@)
    &&& cs[k].child_count == n_unres(es, cs, k, es.len() as int)
}

pub open spec fn cache_ok(es: Seq<data::Entry>, cs: Seq<CacheEntry>) -> bool {
    &&& cs.len() == es.len()
    &&& forall|k: int| 0 <= k < es.len() ==> slot_ok(es, cs, k)
}

/// Entry `k` belongs to the subtree of a base before position `from`.
pub open spec fn resolved_upto(es: Seq<data::Entry>, from: int, k: int) -> bool {
    exists|b: int| 0 <= b < from && #[trigger] is_base_at(es, b) && #[trigger] in_subtree(es, b, k)
}

// ---------------------------------------------------------------------------
// Counting lemmas.
// ---------------------------------------------------------------------------
pub proof fn lemma_n_unres_nonneg(es: Seq<data::Entry>, cs: Seq<CacheEntry>, k: int, upto: int)
    ensures
        n_unres(es, cs, k, upto) >= 0,
    decreases upto,
{
    if upto > 0 {
        lemma_n_unres_nonneg(es, cs, k, upto - 1);
    }
}

/// Marking entry `i` resolved lowers its parent's count by one and no
/// other's.
pub proof fn lemma_n_unres_flip(
    es: Seq<data::Entry>,
    c1: Seq<CacheEntry>,
    c2: Seq<CacheEntry>,
    i: int,
    k: int,
    upto: int,
)
    requires
        forall|m: int| 0 <= m < upto && m != i ==> c1[m].resolved == c2[m].resolved,
        !c1[i].resolved,
        c2[i].resolved,
    ensures
        n_unres(es, c2, k, upto) == n_unres(es, c1, k, upto) - (if 0 <= i < upto && dep(es, i, k) {
            1int
        } else {
            0int
        }),
    decreases upto,
{
    if upto > 0 {
        lemma_n_unres_flip(es, c1, c2, i, k, upto - 1);
    }
}

pub proof fn lemma_n_resolved_flip(
    c1: Seq<CacheEntry>,
    c2: Seq<CacheEntry>,
    i: int,
    upto: int,
)
    requires
        forall|m: int| 0 <= m < upto && m != i ==> c1[m].resolved == c2[m].resolved,
        !c1[i].resolved,
        c2[i].resolved,
    ensures
        n_resolved(c2, upto) == n_resolved(c1, upto) + (if 0 <= i < upto {
            1int
        } else {
            0int
        }),
    decreases upto,
{
    if upto > 0 {
        lemma_n_resolved_flip(c1, c2, i, upto - 1);
    }
}

/// Counts depend on the resolved flags alone.
pub proof fn lemma_n_unres_same(
    es: Seq<data::Entry>,
    c1: Seq<CacheEntry>,
    c2: Seq<CacheEntry>,
    k: int,
    upto: int,
)
    requires
        forall|m: int| 0 <= m < upto ==> c1[m].resolved == c2[m].resolved,
    ensures
        n_unres(es, c2, k, upto) == n_unres(es, c1, k, upto),
    decreases upto,
{
    if upto > 0 {
        lemma_n_unres_same(es, c1, c2, k, upto - 1);
    }
}

/// A zero count means every dependent in range is resolved: a cache slot
/// whose bytes are dropped under [`slot_ok`] can have no unresolved
/// dependent left that would still read them.
pub proof fn lemma_n_unres_zero(
    es: Seq<data::Entry>,
    cs: Seq<CacheEntry>,
    k: int,
    j: int,
    upto: int,
)
    requires
        n_unres(es, cs, k, upto) == 0,
        0 <= j < upto,
        dep(es, j, k),
    ensures
        cs[j].resolved,
    decreases upto,
{
    lemma_n_unres_nonneg(es, cs, k, upto - 1);
    if j < upto - 1 {
        lemma_n_unres_nonneg(es, cs, k, j);
        lemma_n_unres_zero(es, cs, k, j, upto - 1);
    }
}

/// An unresolved dependent in range keeps the count positive.
pub proof fn lemma_n_unres_pos(
    es: Seq<data::Entry>,
    cs: Seq<CacheEntry>,
    k: int,
    j: int,
    upto: int,
)
    requires
        0 <= j < upto,
        dep(es, j, k),
        !cs[j].resolved,
    ensures
        n_unres(es, cs, k, upto) >= 1,
    decreases upto,
{
    lemma_n_unres_nonneg(es, cs, k, j);
    if j < upto - 1 {
        lemma_n_unres_pos(es, cs, k, j, upto - 1);
    }
}

pub proof fn lemma_n_resolved_all(cs: Seq<CacheEntry>, upto: int)
    requires
        0 <= upto <= cs.len(),
        forall|m: int| 0 <= m < upto ==> cs[m].resolved,
    ensures
        n_resolved(cs, upto) == upto,
    decreases upto,
{
    if upto > 0 {
        lemma_n_resolved_all(cs, upto - 1);
    }
}

pub proof fn lemma_n_resolved_none(cs: Seq<CacheEntry>, upto: int)
    requires
        forall|m: int| 0 <= m < upto ==> !cs[m].resolved,
    ensures
        n_resolved(cs, upto) == 0,
    decreases upto,
{
    if upto > 0 {
        lemma_n_resolved_none(cs, upto - 1);
    }
}


/// Counts are bounded by the range they count over.
pub proof fn lemma_n_unres_bound(es: Seq<data::Entry>, cs: Seq<CacheEntry>, k: int, upto: int)
    ensures
        n_unres(es, cs, k, upto) <= (if upto < 0 { 0int } else { upto }),
    decreases upto,
{
    if upto > 0 {
        lemma_n_unres_bound(es, cs, k, upto - 1);
    }
}

/// An entry has one parent.
pub proof fn lemma_dep_unique(es: Seq<data::Entry>, j: int, k1: int, k2: int)
    requires
        wf_model(es),
        dep(es, j, k1),
        dep(es, j, k2),
    ensures
        k1 == k2,
{
    if k1 < k2 {
        lemma_mono(es, k1, k2);
    }
    if k2 < k1 {
        lemma_mono(es, k2, k1);
    }
}

// ---------------------------------------------------------------------------
// Small executable helpers.
// ---------------------------------------------------------------------------
pub fn clone_bytes(v: &Vec<u8>) -> (r: Vec<u8>)
    ensures
        r@ == v@,
{
    let mut r: Vec<u8> = Vec::new();
    let mut k: usize = 0;
    while k < v.len()
        invariant
            k <= v@.len(),
            r@ == v@.subrange(0, k as int),
        decreases v@.len() - k,
    {
        r.push(v[k]);
        assert(r@ =~= v@.subrange(0, k as int + 1));
        k = k + 1;
    }
    assert(r@ =~= v@);
    r
}

pub fn append_bytes(dst: &mut Vec<u8>, src: &Vec<u8>)
    ensures
        final(dst)@ == old(dst)@ + src@,
{
    let mut k: usize = 0;
    while k < src.len()
        invariant
            k <= src@.len(),
            dst@ == old(dst)@ + src@.subrange(0, k as int),
        decreases src@.len() - k,
    {
        dst.push(src[k]);
        assert(dst@ =~= old(dst)@ + src@.subrange(0, k as int + 1));
        k = k + 1;
    }
    assert(dst@ =~= old(dst)@ + src@);
}

fn dec_bytes(n: u64) -> (r: Vec<u8>)
    ensures
        r@ == dec_digits(n as int),
    decreases n,
{
    if n < 10 {
        let mut r: Vec<u8> = Vec::new();
        r.push((48 + n) as u8);
        assert(r@ =~= dec_digits(n as int));
        r
    } else {
        let mut r = dec_bytes(n / 10);
        r.push((48 + n % 10) as u8);
        assert(r@ =~= dec_digits(n as int));
        r
    }
}

/// The canonical object header for a kind and a payload length.
fn loose_header_exec(k: &BaseKind, len: usize) -> (r: Vec<u8>)
    ensures
        r@ == loose_header(*k, len as int),
{
    let mut r: Vec<u8> = Vec::new();
    match k {
        BaseKind::Commit => {
            r.push(99);
            r.push(111);
            r.push(109);
            r.push(109);
            r.push(105);
            r.push(116);
        },
        BaseKind::Tree => {
            r.push(116);
            r.push(114);
            r.push(101);
            r.push(101);
        },
        BaseKind::Blob => {
            r.push(98);
            r.push(108);
            r.push(111);
            r.push(98);
        },
        BaseKind::Tag => {
            r.push(116);
            r.push(97);
            r.push(103);
        },
    }
    r.push(32);
    let mut d = dec_bytes(len as u64);
    append_bytes(&mut r, &d);
    r.push(0);
    assert(r@ =~= loose_header(*k, len as int));
    r
}

/// Look up the entry whose header starts at offset `b` among the first
/// `upto` table records.
fn find_index_by_offset(
    table: &Vec<Entry>,
    Ghost(es): Ghost<Seq<data::Entry>>,
    upto: usize,
    b: u64,
) -> (r: Option<usize>)
    requires
        upto <= table@.len(),
        upto <= es.len(),
        forall|k: int| 0 <= k < upto ==> (#[trigger] table@[k]).pack_offset == es[k].pack_offset,
    ensures
        match r {
            Some(p) => p < upto && es[p as int].pack_offset == b,
            None => forall|j: int| 0 <= j < upto ==> es[j].pack_offset != b,
        },
{
    let mut k: usize = 0;
    while k < upto
        invariant
            k <= upto <= table@.len(),
            upto <= es.len(),
            forall|kk: int| 0 <= kk < upto ==> (#[trigger] table@[kk]).pack_offset
                == es[kk].pack_offset,
            forall|j: int| 0 <= j < k ==> es[j].pack_offset != b,
        decreases upto - k,
    {
        if table[k].pack_offset == b {
            return Some(k);
        }
        k = k + 1;
    }
    None
}

// ---------------------------------------------------------------------------
// Ingestion.
// ---------------------------------------------------------------------------
/// What one pass over the stream yields.
pub struct Ingested {
    pub index_entries: Vec<Entry>,
    pub cache: Vec<CacheEntry>,
    pub last_base_index: usize,
    pub num_objects: u32,
    pub pack_hash: Option<Vec<u8>>,
}

/// The first structural violation in the stream, scanned in order.
pub open spec fn scan_err_from(es: Seq<data::Entry>, i: int, last: u64) -> Option<Error>
    decreases es.len() - i,
{
    if i < 0 || i >= es.len() {
        None
    } else {
        let e = es[i];
        if e.pack_offset <= last {
            Some(Error::IteratorInvariantIncreasingPackOffset(last, e.pack_offset))
        } else if e.header matches Header::RefDelta { .. } {
            Some(Error::IteratorInvariantNoRefDelta)
        } else {
            match base_ref(e.header) {
                Some(b) => {
                    if !has_offset_before(es, i, b) {
                        Some(Error::IteratorInvariantBasesBeforeDeltasNeedThem(e.pack_offset, b))
                    } else {
                        scan_err_from(es, i + 1, e.pack_offset)
                    }
                },
                None => scan_err_from(es, i + 1, e.pack_offset),
            }
        }
    }
}

/// The error ingestion reports for a stream, if any, in the order the checks
/// run.
pub open spec fn ingest_err(es: Seq<data::Entry>) -> Option<Error> {
    if es.len() == 0 {
        Some(Error::IteratorInvariantNonEmpty)
    } else {
        match scan_err_from(es, 0, 0u64) {
            Some(e) => Some(e),
            None => {
                if last_base(es, es.len() as int) == -1 {
                    Some(Error::IteratorInvariantBasesPresent)
                } else if es.len() > u32::MAX {
                    Some(Error::IteratorInvariantTooManyObjects(es.len() as usize))
                } else {
                    None
                }
            },
        }
    }
}

/// Consume the stream once: validate it, fill the entry table with CRC32
/// codes over the on-pack bytes, and install the cache slots with their
/// child counts.
#[verifier::rlimit(100)]
pub fn ingest(mode: &Mode, entries: &Vec<data::Entry>) -> (r: Result<Ingested, Error>)
    requires
        forall|i: int|
            0 <= i < entries@.len() ==> (#[trigger] entries@[i]).compressed@.len() <= u64::MAX
                - 32,
    ensures
        match r {
            Err(e) => Some(e) == ingest_err(entries@),
            Ok(ing) => {
                &&& ingest_err(entries@) is None
                &&& wf_model(entries@)
                &&& table_matches(entries@, ing.index_entries@)
                &&& cache_ok(entries@, ing.cache@)
                &&& forall|k: int| 0 <= k < entries@.len() ==> !(#[trigger] ing.cache@[k]).resolved
                &&& ing.last_base_index as int == last_base(entries@, entries@.len() as int)
                &&& ing.num_objects == entries@.len()
                &&& match entries@.last().trailer {
                    Some(t) => ing.pack_hash matches Some(h) && h@ == t@,
                    None => ing.pack_hash is None,
                }
            },
        },
{
    let ghost es = entries@;
    let n = entries.len();
    if n == 0 {
        return Err(Error::IteratorInvariantNonEmpty);
    }
    let mut table: Vec<Entry> = Vec::new();
    let mut cache: Vec<CacheEntry> = Vec::new();
    let mut last_base_idx: Option<usize> = None;
    let mut last_ofs: u64 = 0;
    let mut i: usize = 0;
    while i < n
        invariant
            es == entries@,
            n == es.len(),
            i <= n,
            forall|k: int|
                0 <= k < es.len() ==> (#[trigger] es[k]).compressed@.len() <= u64::MAX - 32,
            table@.len() == i,
            cache@.len() == i,
            last_ofs == (if i == 0 { 0u64 } else { es[i - 1].pack_offset }),
            scan_err_from(es, 0, 0u64) == scan_err_from(es, i as int, last_ofs),
            forall|k: int| 0 <= k < i ==> (#[trigger] es[k].pack_offset) as int > prev_ofs(es, k),
            forall|k: int|
                0 <= k < i ==> match base_ref(#[trigger] es[k].header) {
                    Some(b) => has_offset_before(es, k, b),
                    None => es[k].header.is_base(),
                },
            forall|k: int| 0 <= k < i ==> #[trigger] table@[k] == record_of(es[k]),
            forall|k: int| 0 <= k < i ==> !(#[trigger] cache@[k]).resolved,
            forall|k: int|
                0 <= k < i ==> ((#[trigger] cache@[k]).decompressed matches Some(d) && d@
                    == es[k].decompressed@),
            forall|k: int|
                0 <= k < i ==> (#[trigger] cache@[k]).child_count == n_unres(es, cache@, k, i as int),
            match last_base_idx {
                None => last_base(es, i as int) == -1,
                Some(x) => last_base(es, i as int) == x && x < i,
            },
        decreases n - i,
    {
        let e = &entries[i];
        if e.pack_offset <= last_ofs {
            return Err(Error::IteratorInvariantIncreasingPackOffset(last_ofs, e.pack_offset));
        }
        let ghost cache_before = cache@;
        let ghost mut parent: int = -1;
        match &e.header {
            Header::RefDelta { .. } => {
                return Err(Error::IteratorInvariantNoRefDelta);
            },
            Header::OfsDelta { base_pack_offset } => {
                let b = *base_pack_offset;
                match find_index_by_offset(&table, Ghost(es), i, b) {
                    None => {
                        assert(!has_offset_before(es, i as int, b));
                        return Err(Error::IteratorInvariantBasesBeforeDeltasNeedThem(
                            e.pack_offset,
                            b,
                        ));
                    },
                    Some(p) => {
                        proof {
                            parent = p as int;
                            assert(0 <= parent < i);
                            assert(es[parent].pack_offset == base_ref(
                                es[i as int].header,
                            )->Some_0);
                            lemma_n_unres_bound(es, cache@, parent, i as int);
                        }
                        let slot = &mut cache[p];
                        slot.increment_child_count();
                    },
                }
            },
            _ => {
                last_base_idx = Some(i);
            },
        }
        proof {
            let inew = i as int;
            // the new entry's offset extends the strict order
            assert(forall|k: int|
                0 <= k <= inew ==> (#[trigger] es[k].pack_offset) as int > prev_ofs(es, k));
            assert(forall|m: int|
                0 <= m < inew && m != parent ==> cache@[m] == cache_before[m]);
            assert(parent >= 0 ==> (#[trigger] cache@[parent]).child_count
                == cache_before[parent].child_count + 1);
            assert(parent >= 0 ==> (base_ref(es[inew].header) matches Some(b2) && es[parent].pack_offset
                == b2));
            assert(parent < 0 ==> base_ref(es[inew].header) is None);
            if parent >= 0 {
                lemma_mono_prefix(es, parent, inew);
            }
        }
        let hv = encode_entry_header(&e.header, e.decompressed.len() as u64, e.pack_offset);
        let hlen = hv.len();
        let mut buf = hv;
        append_bytes(&mut buf, &e.compressed);
        let crc = crate::hashing::crc32(buf.as_slice());
        assert(buf@ == data::on_pack_bytes(es[i as int]));
        let entry_len: u64 = hlen as u64 + e.compressed.len() as u64;
        let kind = match &e.header {
            Header::Commit => ObjectKind::Base(BaseKind::Commit),
            Header::Tree => ObjectKind::Base(BaseKind::Tree),
            Header::Blob => ObjectKind::Base(BaseKind::Blob),
            Header::Tag => ObjectKind::Base(BaseKind::Tag),
            Header::OfsDelta { base_pack_offset } => ObjectKind::OfsDelta(*base_pack_offset),
            Header::RefDelta { .. } => ObjectKind::Base(BaseKind::Blob),
        };
        table.push(
            Entry { pack_offset: e.pack_offset, entry_len, kind, crc32: crc },
        );
        let comp = clone_bytes(&e.compressed);
        let dec = clone_bytes(&e.decompressed);
        let slot = match &e.header {
            Header::OfsDelta { .. } => mode.delta_cache(comp, dec),
            _ => mode.base_cache(comp, dec),
        };
        cache.push(slot);
        proof {
            let inew = i as int;
            assert(table@[inew] == record_of(es[inew]));
            assert forall|k: int| 0 <= k < inew + 1 implies (#[trigger] cache@[k]).child_count
                == n_unres(es, cache@, k, inew + 1) by {
                lemma_n_unres_same(es, cache_before, cache@, k, inew);
                assert(!cache@[inew].resolved);
                if k < inew {
                    if dep(es, inew, k) {
                        assert(parent >= 0);
                        assert(es[k].pack_offset == es[parent].pack_offset);
                        if k < parent {
                            lemma_mono_prefix(es, k, parent);
                        }
                        if parent < k {
                            lemma_mono_prefix(es, parent, k);
                        }
                        assert(k == parent);
                        assert(cache@[k].child_count == n_unres(es, cache_before, k, inew) + 1);
                    } else {
                        assert(k != parent);
                        assert(cache@[k].child_count == n_unres(es, cache_before, k, inew));
                    }
                } else {
                    assert forall|j: int| 0 <= j < inew + 1 implies !(dep(es, j, inew)
                        && !(#[trigger] cache@[j]).resolved) by {
                        if dep(es, j, inew) {
                            if j < inew {
                                assert(has_offset_before(es, j, es[inew].pack_offset));
                                let jj = choose|jj: int|
                                    0 <= jj < j && es[jj].pack_offset == es[inew].pack_offset;
                                lemma_mono_prefix(es, jj, inew);
                            } else {
                                assert(j == inew);
                                assert(base_ref(es[inew].header) == Some(es[inew].pack_offset));
                                assert(parent >= 0);
                                lemma_mono_prefix(es, parent, inew);
                            }
                        }
                    }
                    lemma_n_unres_none(es, cache@, inew, inew + 1);
                }
            }
        }
        last_ofs = e.pack_offset;
        i = i + 1;
    }
    let last_base_index = match last_base_idx {
        None => {
            return Err(Error::IteratorInvariantBasesPresent);
        },
        Some(x) => x,
    };
    if n > u32::MAX as usize {
        return Err(Error::IteratorInvariantTooManyObjects(n));
    }
    let pack_hash = match &entries[n - 1].trailer {
        Some(t) => Some(clone_bytes(t)),
        None => None,
    };
    Ok(Ingested {
        index_entries: table,
        cache,
        last_base_index,
        num_objects: n as u32,
        pack_hash,
    })
}

/// No dependent of `k` in range is unresolved: the count is zero.
pub proof fn lemma_n_unres_none(es: Seq<data::Entry>, cs: Seq<CacheEntry>, k: int, upto: int)
    requires
        forall|j: int| 0 <= j < upto ==> !(dep(es, j, k) && !(#[trigger] cs[j]).resolved),
    ensures
        n_unres(es, cs, k, upto) == 0,
    decreases upto,
{
    if upto > 0 {
        lemma_n_unres_none(es, cs, k, upto - 1);
    }
}

/// Strict offset order over a validated prefix.
pub proof fn lemma_mono_prefix(es: Seq<data::Entry>, a: int, b: int)
    requires
        forall|k: int| 0 <= k <= b ==> (#[trigger] es[k].pack_offset) as int > prev_ofs(es, k),
        0 <= a < b < es.len(),
    ensures
        es[a].pack_offset < es[b].pack_offset,
    decreases b - a,
{
    assert(es[b].pack_offset as int > prev_ofs(es, b));
    if a < b - 1 {
        lemma_mono_prefix(es, a, b - 1);
    }
}


// ---------------------------------------------------------------------------
// Delta resolution.
// ---------------------------------------------------------------------------
/// The views of a tuple vector.
pub open spec fn tvs(ts: Seq<IdTuple>) -> Seq<(u64, Seq<u8>, u32)> {
    ts.map_values(|t: IdTuple| tv(t))
}

pub proof fn lemma_tvs_push(ts: Seq<IdTuple>, t: IdTuple)
    ensures
        tvs(ts.push(t)) == tvs(ts).push(tv(t)),
{
    assert(tvs(ts.push(t)) =~= tvs(ts).push(tv(t)));
}



/// Unfold one step of `emit_children`.
pub proof fn lemma_emit_unfold(es: Seq<data::Entry>, i: int, j: int)
    requires
        i < j < es.len(),
        0 <= i,
    ensures
        emit_children(es, i, j) == (if dep(es, j, i) {
            emit(es, j)
        } else {
            Seq::<(u64, Seq<u8>, u32)>::empty()
        }) + emit_children(es, i, j + 1),
{
    assert(emit_children(es, i, j) =~= (if dep(es, j, i) {
        emit(es, j)
    } else {
        Seq::<(u64, Seq<u8>, u32)>::empty()
    }) + emit_children(es, i, j + 1));
}

/// How the resolved set reads after one child subtree is done.
pub proof fn lemma_child_iff(
    es: Seq<data::Entry>,
    c0: Seq<CacheEntry>,
    cb: Seq<CacheEntry>,
    ca: Seq<CacheEntry>,
    i: int,
    j: int,
)
    requires
        wf_model(es),
        0 <= i < j < es.len(),
        dep(es, j, i),
        forall|k: int|
            0 <= k < es.len() ==> ((#[trigger] ca[k]).resolved <==> (cb[k].resolved || in_subtree(
                es,
                j,
                k,
            ))),
        forall|k: int|
            0 <= k < es.len() ==> ((#[trigger] cb[k]).resolved <==> (c0[k].resolved || k == i || (
            in_subtree(es, i, k) && k != i && cpath(es, i, k) < j))),
    ensures
        forall|k: int|
            0 <= k < es.len() ==> ((#[trigger] ca[k]).resolved <==> (c0[k].resolved || k == i || (
            in_subtree(es, i, k) && k != i && cpath(es, i, k) < j + 1))),
{
    assert forall|k: int|
        0 <= k < es.len() implies ((#[trigger] ca[k]).resolved <==> (c0[k].resolved || k == i || (
        in_subtree(es, i, k) && k != i && cpath(es, i, k) < j + 1))) by {
        if in_subtree(es, j, k) {
            lemma_subtree_step(es, i, j, k);
        }
        if in_subtree(es, i, k) && k != i && cpath(es, i, k) == j {
            lemma_cpath_props(es, i, k);
        }
    }
}

/// Entries of a child's subtree are untouched before that child is taken up.
pub proof fn lemma_child_unresolved(
    es: Seq<data::Entry>,
    c0: Seq<CacheEntry>,
    cb: Seq<CacheEntry>,
    i: int,
    j: int,
)
    requires
        wf_model(es),
        0 <= i < j < es.len(),
        dep(es, j, i),
        forall|k: int| 0 <= k < es.len() && in_subtree(es, i, k) ==> !(#[trigger] c0[k]).resolved,
        forall|k: int|
            0 <= k < es.len() ==> ((#[trigger] cb[k]).resolved <==> (c0[k].resolved || k == i || (
            in_subtree(es, i, k) && k != i && cpath(es, i, k) < j))),
    ensures
        forall|k: int| 0 <= k < es.len() && in_subtree(es, j, k) ==> !(#[trigger] cb[k]).resolved,
{
    assert forall|k: int|
        0 <= k < es.len() && in_subtree(es, j, k) implies !(#[trigger] cb[k]).resolved by {
        lemma_subtree_step(es, i, j, k);
    }
}

/// A position that is no dependent of `i` is on no path out of `i`.
pub proof fn lemma_cpath_skip(es: Seq<data::Entry>, i: int, j: int)
    requires
        wf_model(es),
        0 <= i < es.len(),
        !dep(es, j, i),
    ensures
        forall|k: int|
            0 <= k < es.len() && #[trigger] in_subtree(es, i, k) && k != i ==> cpath(es, i, k)
                != j,
{
    assert forall|k: int|
        0 <= k < es.len() && #[trigger] in_subtree(es, i, k) && k != i implies cpath(es, i, k)
            != j by {
        lemma_cpath_props(es, i, k);
    }
}

/// Marking entry `i` resolved, settling its parent's count and releasing
/// exhausted slots preserves the cache discipline.
pub proof fn lemma_settle(
    es: Seq<data::Entry>,
    c0: Seq<CacheEntry>,
    c2: Seq<CacheEntry>,
    i: int,
    parent: int,
)
    requires
        wf_model(es),
        cache_ok(es, c0),
        0 <= i < es.len(),
        !c0[i].resolved,
        parent >= 0 ==> 0 <= parent < es.len() && parent != i && dep(es, i, parent),
        parent < 0 ==> base_ref(es[i].header) is None,
        c2.len() == es.len(),
        forall|m: int| 0 <= m < es.len() && m != i && m != parent ==> c2[m] == c0[m],
        c2[i].resolved,
        c2[i].child_count == c0[i].child_count,
        c2[i].decompressed == (if c0[i].child_count == 0 {
            None
        } else {
            c0[i].decompressed
        }),
        parent >= 0 ==> c2[parent].child_count == c0[parent].child_count - 1
            && c2[parent].resolved == c0[parent].resolved && c2[parent].decompressed == (if c2[
            parent].child_count == 0 && c2[parent].resolved {
            None::<Vec<u8>>
        } else {
            c0[parent].decompressed
        }),
    ensures
        cache_ok(es, c2),
        n_resolved(c2, es.len() as int) == n_resolved(c0, es.len() as int) + 1,
        forall|k: int|
            0 <= k < es.len() ==> ((#[trigger] c2[k]).resolved <==> (c0[k].resolved || k == i)),
{
    let n = es.len() as int;
    if dep(es, i, i) {
        let jj = choose|jj: int| 0 <= jj < i && es[jj].pack_offset == es[i].pack_offset;
        lemma_mono(es, jj, i);
    }
    assert forall|k: int| 0 <= k < n implies slot_ok(es, c2, k) by {
        assert(slot_ok(es, c0, k));
        lemma_n_unres_flip(es, c0, c2, i, k, n);
        if dep(es, i, k) {
            assert(parent >= 0) by {
                if parent < 0 {
                    assert(base_ref(es[i].header) is None);
                }
            }
            lemma_dep_unique(es, i, k, parent);
            assert(k == parent);
        }
        if k == i {
            assert(n_unres(es, c2, k, n) == n_unres(es, c0, k, n));
        }
    }
    lemma_n_resolved_flip(c0, c2, i, n);
}

/// Resolve entry `i` and, depth-first, every entry of its subtree: hash each
/// object, emit its tuple, and release cache slots at the first moment an
/// entry is resolved and its last dependent has been consumed.
#[verifier::rlimit(100)]
pub fn resolve_entry(
    entries: &Vec<data::Entry>,
    table: &Vec<Entry>,
    cache: &mut Vec<CacheEntry>,
    i: usize,
    kind: &BaseKind,
    bytes: &Vec<u8>,
    out: &mut Vec<IdTuple>,
) -> (r: Result<(), Error>)
    requires
        wf_model(entries@),
        table_matches(entries@, table@),
        cache_ok(entries@, old(cache)@),
        i < entries@.len(),
        forall|k: int|
            0 <= k < entries@.len() && in_subtree(entries@, i as int, k) ==> !(#[trigger] old(
                cache,
            )@[k]).resolved,
        materialized(entries@, i as int) == Some(bytes@),
        okind(entries@, i as int) == *kind,
    ensures
        final(cache)@.len() == old(cache)@.len(),
        cache_ok(entries@, final(cache)@),
        match r {
            Ok(_) => {
                &&& forall|k: int|
                    0 <= k < entries@.len() ==> ((#[trigger] final(cache)@[k]).resolved <==> (old(
                        cache,
                    )@[k].resolved || in_subtree(entries@, i as int, k)))
                &&& tvs(final(out)@) == tvs(old(out)@) + emit(entries@, i as int)
                &&& forall|k: int|
                    0 <= k < entries@.len() && in_subtree(entries@, i as int, k) ==> (
                    #[trigger] materialized(entries@, k)) is Some
                &&& n_resolved(final(cache)@, entries@.len() as int) == n_resolved(
                    old(cache)@,
                    entries@.len() as int,
                ) + final(out)@.len() - old(out)@.len()
            },
            Err(e) => {
                &&& e matches Error::DeltaApplication(_)
                &&& exists|k: int|
                    0 <= k < entries@.len() && (#[trigger] materialized(entries@, k)) is None
            },
        },
    decreases entries@.len() - i,
{
    let ghost es = entries@;
    let ghost n = es.len() as int;
    let ghost c0 = cache@;
    let ghost out0 = out@;
    // hash the object and emit its tuple
    let mut hv = loose_header_exec(kind, bytes.len());
    append_bytes(&mut hv, bytes);
    let oid = crate::hashing::sha1_digest(hv.as_slice());
    out.push(IdTuple { pack_offset: table[i].pack_offset, oid, crc32: 0 });
    proof {
        lemma_tvs_push(out0, out@.last());
        assert(tv(out@.last()) == tuple_of(es, i as int));
        assert(tvs(out@) =~= tvs(out0) + seq![tuple_of(es, i as int)]);
    }
    // mark the entry resolved
    let ghost c_pre = cache@;
    {
        let slot = &mut cache[i];
        slot.resolved = true;
    }
    // a delta has consumed its parent's bytes: settle the parent's count
    let ghost mut parent: int = -1;
    match table[i].kind {
        ObjectKind::OfsDelta(b) => {
            proof {
                assert(table@[i as int] == record_of(es[i as int]));
                assert(base_ref(es[i as int].header) == Some(b));
            }
            let p = match find_index_by_offset(table, Ghost(es), table.len(), b) {
                Some(p) => p,
                None => {
                    proof {
                        assert(has_offset_before(es, i as int, b));
                        let jj = choose|jj: int| 0 <= jj < i && es[jj].pack_offset == b;
                        assert(false);
                    }
                    return Err(Error::DeltaApplication(0));
                },
            };
            proof {
                parent = p as int;
                assert(dep(es, i as int, parent));
                lemma_dep_parent(es, i as int, parent);
                assert(in_subtree(es, i as int, i as int));
                assert(!c_pre[i as int].resolved);
                lemma_n_unres_pos(es, c_pre, parent, i as int, n);
                assert(slot_ok(es, c0, parent));
                assert(cache@[parent] == c_pre[parent]);
                assert(cache@[parent].child_count == n_unres(es, c_pre, parent, n));
                assert(cache@[parent].child_count >= 1);
            }
            let slot = &mut cache[p];
            slot.decrement_child_count();
            if cache[p].child_count == 0 && cache[p].resolved {
                let slot2 = &mut cache[p];
                slot2.decompressed = None;
                slot2.compressed = None;
            }
        },
        _ => {
            proof {
                assert(table@[i as int] == record_of(es[i as int]));
                assert(base_ref(es[i as int].header) is None);
            }
        },
    }
    // the entry's own bytes go as soon as no dependent needs them
    if cache[i].child_count == 0 {
        let slot = &mut cache[i];
        slot.decompressed = None;
        slot.compressed = None;
    }
    proof {
        assert(c_pre == c0);
        assert(parent >= 0 ==> parent < i);
        lemma_settle(es, c0, cache@, i as int, parent);
        assert(cache_ok(es, cache@));
        assert forall|k: int|
            0 <= k < n && in_subtree(es, i as int, k) && k != i as int implies cpath(
            es,
            i as int,
            k,
        ) > i as int by {
            lemma_cpath_props(es, i as int, k);
        }
    }
    // the dependents, depth first
    let n_exec = entries.len();
    let mut j = i + 1;
    while j < n_exec
        invariant
            es == entries@,
            n == es.len(),
            n_exec == es.len(),
            c0 == old(cache)@,
            c0.len() == n,
            out0 == old(out)@,
            wf_model(es),
            table_matches(es, table@),
            i < j <= n,
            (i as int) < n,
            materialized(es, i as int) == Some(bytes@),
            okind(es, i as int) == *kind,
            forall|k: int|
                0 <= k < n && in_subtree(es, i as int, k) ==> !(#[trigger] c0[k]).resolved,
            cache@.len() == n,
            cache_ok(es, cache@),
            forall|k: int|
                0 <= k < n ==> ((#[trigger] cache@[k]).resolved <==> (c0[k].resolved || k
                    == i as int || (in_subtree(es, i as int, k) && k != i as int && cpath(
                    es,
                    i as int,
                    k,
                ) < j as int))),
            tvs(out@) + emit_children(es, i as int, j as int) == tvs(out0) + emit(es, i as int),
            forall|k: int|
                0 <= k < n && in_subtree(es, i as int, k) && (k == i as int || cpath(
                    es,
                    i as int,
                    k,
                ) < j as int) ==> (#[trigger] materialized(es, k)) is Some,
            n_resolved(cache@, n) == n_resolved(c0, n) + out@.len() - out0.len(),
        decreases n - j,
    {
        let is_child = match table[j].kind {
            ObjectKind::OfsDelta(b) => b == table[i].pack_offset,
            _ => false,
        };
        if is_child {
            proof {
                assert(table@[j as int] == record_of(es[j as int]));
                assert(base_ref(es[j as int].header) == Some(es[i as int].pack_offset));
                assert(dep(es, j as int, i as int));
                lemma_dep_parent(es, j as int, i as int);
                assert(in_subtree(es, j as int, j as int));
                lemma_subtree_step(es, i as int, j as int, j as int);
                assert(cpath(es, i as int, j as int) == j as int);
                assert(!cache@[j as int].resolved);
            }
            proof {
                assert(slot_ok(es, cache@, j as int));
            }
            let applied = match &cache[j].decompressed {
                Some(stream) => crate::delta::apply_delta(bytes, stream),
                None => {
                    proof {
                        assert(!(cache@[j as int].resolved && cache@[j as int].child_count == 0));
                        assert(false);
                    }
                    None
                },
            };
            let child = match applied {
                Some(cb) => cb,
                None => {
                    proof {
                        assert(cache@[j as int].decompressed matches Some(d) && d@
                            == es[j as int].decompressed@);
                        assert(apply_delta_spec(bytes@, es[j as int].decompressed@) is None);
                        assert(find_ofs(es, es[i as int].pack_offset) == i as int);
                        assert(materialized(es, j as int) is None);
                    }
                    return Err(Error::DeltaApplication(table[j].pack_offset));
                },
            };
            proof {
                assert(cache@[j as int].decompressed matches Some(d) && d@
                    == es[j as int].decompressed@);
                assert(find_ofs(es, es[i as int].pack_offset) == i as int);
                assert(apply_delta_spec(bytes@, es[j as int].decompressed@) == Some(child@));
                assert(materialized(es, j as int) == Some(child@));
                assert(okind(es, j as int) == *kind);
                lemma_child_unresolved(es, c0, cache@, i as int, j as int);
            }
            let ghost c_before_rec = cache@;
            let ghost out_before_rec = out@;
            match resolve_entry(entries, table, cache, j, kind, &child, out) {
                Err(e) => {
                    return Err(e);
                },
                Ok(()) => {},
            }
            proof {
                lemma_child_iff(es, c0, c_before_rec, cache@, i as int, j as int);
                lemma_emit_unfold(es, i as int, j as int);
                assert(tvs(out@) + emit_children(es, i as int, j as int + 1) =~= tvs(out0) + emit(
                    es,
                    i as int,
                ));
                assert forall|k: int|
                    0 <= k < n && in_subtree(es, i as int, k) && (k == i as int || cpath(
                        es,
                        i as int,
                        k,
                    ) < j as int + 1) implies (#[trigger] materialized(es, k)) is Some by {
                    if k != i as int && cpath(es, i as int, k) == j as int {
                        lemma_cpath_props(es, i as int, k);
                    }
                }
            }
        } else {
            proof {
                assert(table@[j as int] == record_of(es[j as int]));
                assert(!dep(es, j as int, i as int));
                lemma_emit_unfold(es, i as int, j as int);
                assert(Seq::<(u64, Seq<u8>, u32)>::empty() + emit_children(es, i as int, j as int
                    + 1) =~= emit_children(es, i as int, j as int + 1));
                lemma_cpath_skip(es, i as int, j as int);
            }
        }
        j = j + 1;
    }
    proof {
        assert(emit_children(es, i as int, n) =~= Seq::<(u64, Seq<u8>, u32)>::empty());
        assert(tvs(out@) =~= tvs(out0) + emit(es, i as int));
        assert forall|k: int|
            0 <= k < n implies ((#[trigger] cache@[k]).resolved <==> (c0[k].resolved
                || in_subtree(es, i as int, k))) by {
            if in_subtree(es, i as int, k) && k != i as int {
                lemma_cpath_props(es, i as int, k);
            }
        }
        assert forall|k: int|
            0 <= k < n && in_subtree(es, i as int, k) implies (#[trigger] materialized(
                es,
                k,
            )) is Some by {
            if k != i as int {
                lemma_cpath_props(es, i as int, k);
            }
        }
    }
    Ok(())
}


/// Resolve every base subtree among the first `to` entries, in base order.
#[verifier::rlimit(100)]
pub fn apply_deltas(
    entries: &Vec<data::Entry>,
    table: &Vec<Entry>,
    cache: &mut Vec<CacheEntry>,
    to: usize,
    out: &mut Vec<IdTuple>,
) -> (r: Result<(), Error>)
    requires
        wf_model(entries@),
        table_matches(entries@, table@),
        cache_ok(entries@, old(cache)@),
        to <= entries@.len(),
        forall|k: int| 0 <= k < entries@.len() ==> !(#[trigger] old(cache)@[k]).resolved,
    ensures
        final(cache)@.len() == old(cache)@.len(),
        cache_ok(entries@, final(cache)@),
        match r {
            Ok(_) => {
                &&& tvs(final(out)@) == tvs(old(out)@) + emit_range(entries@, to as int)
                &&& forall|k: int|
                    0 <= k < entries@.len() ==> ((#[trigger] final(cache)@[k]).resolved
                        <==> resolved_upto(entries@, to as int, k))
                &&& forall|k: int|
                    0 <= k < entries@.len() && (#[trigger] final(cache)@[k]).resolved
                        ==> materialized(entries@, k) is Some
                &&& n_resolved(final(cache)@, entries@.len() as int) == final(out)@.len() - old(
                    out,
                )@.len()
            },
            Err(e) => {
                &&& e matches Error::DeltaApplication(_)
                &&& exists|k: int|
                    0 <= k < entries@.len() && (#[trigger] materialized(entries@, k)) is None
            },
        },
{
    let ghost es = entries@;
    let ghost n = es.len() as int;
    let ghost c0 = cache@;
    let ghost out0 = out@;
    proof {
        lemma_n_resolved_none(c0, n);
    }
    let mut i: usize = 0;
    while i < to
        invariant
            es == entries@,
            n == es.len(),
            c0 == old(cache)@,
            c0.len() == n,
            out0 == old(out)@,
            wf_model(es),
            table_matches(es, table@),
            i <= to <= n,
            forall|k: int| 0 <= k < n ==> !(#[trigger] c0[k]).resolved,
            cache@.len() == n,
            cache_ok(es, cache@),
            forall|k: int|
                0 <= k < n ==> ((#[trigger] cache@[k]).resolved <==> resolved_upto(
                    es,
                    i as int,
                    k,
                )),
            tvs(out@) == tvs(out0) + emit_range(es, i as int),
            forall|k: int|
                0 <= k < n && (#[trigger] cache@[k]).resolved ==> materialized(es, k) is Some,
            n_resolved(cache@, n) == out@.len() - out0.len(),
        decreases to - i,
    {
        let bk = match table[i].kind {
            ObjectKind::Base(bk) => Some(bk),
            _ => None,
        };
        match bk {
            Some(bk) => {
                proof {
                    assert(table@[i as int] == record_of(es[i as int]));
                    assert(es[i as int].header.is_base()) by {
                        if base_ref(es[i as int].header) is Some {
                            assert(kind_map(es[i as int].header) matches ObjectKind::OfsDelta(_));
                        }
                    }
                    assert(is_base_at(es, i as int));
                    if cache@[i as int].resolved {
                        let b = choose|b: int|
                            0 <= b < i && #[trigger] is_base_at(es, b) && #[trigger] in_subtree(
                                es,
                                b,
                                i as int,
                            );
                        lemma_subtree_base(es, b, i as int);
                    }
                    assert(!cache@[i as int].resolved);
                    assert forall|k: int|
                        0 <= k < n && in_subtree(es, i as int, k) implies !(
                    #[trigger] cache@[k]).resolved by {
                        if cache@[k].resolved {
                            let b = choose|b: int|
                                0 <= b < i && #[trigger] is_base_at(es, b) && #[trigger] in_subtree(
                                    es,
                                    b,
                                    k,
                                );
                            lemma_subtree_disjoint(es, b, i as int, k);
                        }
                    }
                    assert(slot_ok(es, cache@, i as int));
                }
                let bytes = match &cache[i].decompressed {
                    Some(v) => clone_bytes(v),
                    None => {
                        proof {
                            assert(false);
                        }
                        Vec::new()
                    },
                };
                proof {
                    assert(base_ref(es[i as int].header) is None);
                    assert(materialized(es, i as int) == Some(bytes@));
                    assert(okind(es, i as int) == bk);
                }
                let ghost c_before = cache@;
                let ghost out_before = out@;
                match resolve_entry(entries, table, cache, i, &bk, &bytes, out) {
                    Err(e) => {
                        return Err(e);
                    },
                    Ok(()) => {},
                }
                proof {
                    assert forall|k: int|
                        0 <= k < n implies ((#[trigger] cache@[k]).resolved <==> resolved_upto(
                        es,
                        i as int + 1,
                        k,
                    )) by {
                        if cache@[k].resolved {
                            if in_subtree(es, i as int, k) {
                                assert(is_base_at(es, i as int));
                                assert(resolved_upto(es, i as int + 1, k));
                            } else {
                                let b = choose|b: int|
                                    0 <= b < i && #[trigger] is_base_at(es, b)
                                        && #[trigger] in_subtree(es, b, k);
                                assert(resolved_upto(es, i as int + 1, k));
                            }
                        }
                        if resolved_upto(es, i as int + 1, k) {
                            let b = choose|b: int|
                                0 <= b < i + 1 && #[trigger] is_base_at(es, b)
                                    && #[trigger] in_subtree(es, b, k);
                        }
                    }
                    assert(emit_range(es, i as int + 1) == emit_range(es, i as int) + emit(
                        es,
                        i as int,
                    ));
                    assert(tvs(out@) =~= tvs(out0) + emit_range(es, i as int + 1));
                }
            },
            None => {
                proof {
                    assert(table@[i as int] == record_of(es[i as int]));
                    assert(!is_base_at(es, i as int)) by {
                        if es[i as int].header.is_base() {
                            assert(kind_map(es[i as int].header) matches ObjectKind::Base(_));
                        }
                    }
                    assert forall|k: int|
                        0 <= k < n implies (resolved_upto(es, i as int + 1, k) <==> resolved_upto(
                        es,
                        i as int,
                        k,
                    )) by {
                        if resolved_upto(es, i as int + 1, k) {
                            let b = choose|b: int|
                                0 <= b < i + 1 && #[trigger] is_base_at(es, b)
                                    && #[trigger] in_subtree(es, b, k);
                            assert(b != i);
                        }
                    }
                    assert(emit_range(es, i as int + 1) == emit_range(es, i as int));
                    assert(tvs(out@) == tvs(out0) + emit_range(es, i as int + 1));
                }
            },
        }
        i = i + 1;
    }
    Ok(())
}

// ---------------------------------------------------------------------------
// Sorting by object id.
// ---------------------------------------------------------------------------
/// Lexicographic order on byte sequences, from position `k` on.
pub open spec fn bytes_le_from(a: Seq<u8>, b: Seq<u8>, k: int) -> bool
    decreases a.len() - k,
{
    if k < 0 || k >= a.len() {
        true
    } else if k >= b.len() {
        false
    } else if a[k] < b[k] {
        true
    } else if a[k] > b[k] {
        false
    } else {
        bytes_le_from(a, b, k + 1)
    }
}

pub open spec fn bytes_le(a: Seq<u8>, b: Seq<u8>) -> bool {
    bytes_le_from(a, b, 0)
}

/// The order of the id table: by object id, then pack offset, then CRC32.
pub open spec fn tuple_le(x: (u64, Seq<u8>, u32), y: (u64, Seq<u8>, u32)) -> bool {
    if x.1 == y.1 {
        if x.0 == y.0 {
            x.2 <= y.2
        } else {
            x.0 < y.0
        }
    } else {
        bytes_le(x.1, y.1)
    }
}

pub open spec fn tleq() -> spec_fn((u64, Seq<u8>, u32), (u64, Seq<u8>, u32)) -> bool {
    |x: (u64, Seq<u8>, u32), y: (u64, Seq<u8>, u32)| tuple_le(x, y)
}

proof fn lemma_bytes_le_total(a: Seq<u8>, b: Seq<u8>, k: int)
    ensures
        bytes_le_from(a, b, k) || bytes_le_from(b, a, k),
    decreases a.len() - k,
{
    if 0 <= k < a.len() && k < b.len() && a[k] == b[k] {
        lemma_bytes_le_total(a, b, k + 1);
    }
}

proof fn lemma_bytes_le_antisym(a: Seq<u8>, b: Seq<u8>, k: int)
    requires
        0 <= k <= a.len(),
        k <= b.len(),
        bytes_le_from(a, b, k),
        bytes_le_from(b, a, k),
    ensures
        a.len() == b.len(),
        forall|m: int| k <= m < a.len() ==> a[m] == b[m],
    decreases a.len() - k,
{
    if k < a.len() {
        lemma_bytes_le_antisym(a, b, k + 1);
    }
}

proof fn lemma_bytes_le_trans(a: Seq<u8>, b: Seq<u8>, c: Seq<u8>, k: int)
    requires
        0 <= k,
        bytes_le_from(a, b, k),
        bytes_le_from(b, c, k),
    ensures
        bytes_le_from(a, c, k),
    decreases a.len() - k,
{
    if k < a.len() && k < b.len() && k < c.len() && a[k] == b[k] && b[k] == c[k] {
        lemma_bytes_le_trans(a, b, c, k + 1);
    }
}

/// The id-table order is a total order.
pub proof fn lemma_tuple_le_total_ordering()
    ensures
        vstd::relations::total_ordering(tleq()),
{
    let leq = tleq();
    assert forall|x: (u64, Seq<u8>, u32)| #[trigger] leq(x, x) by {
        lemma_bytes_le_total(x.1, x.1, 0);
    }
    assert forall|x: (u64, Seq<u8>, u32), y: (u64, Seq<u8>, u32)| #[trigger] leq(x, y) || #[trigger] leq(y, x) by {
        lemma_bytes_le_total(x.1, y.1, 0);
    }
    assert forall|x: (u64, Seq<u8>, u32), y: (u64, Seq<u8>, u32)|
        #[trigger] leq(x, y) && #[trigger] leq(y, x) implies x == y by {
        if x.1 == y.1 {
        } else {
            lemma_bytes_le_antisym(x.1, y.1, 0);
            assert(x.1 =~= y.1);
        }
    }
    assert forall|x: (u64, Seq<u8>, u32), y: (u64, Seq<u8>, u32), z: (u64, Seq<u8>, u32)|
        #[trigger] leq(x, y) && #[trigger] leq(y, z) implies leq(x, z) by {
        if x.1 == y.1 || y.1 == z.1 {
        } else {
            lemma_bytes_le_trans(x.1, y.1, z.1, 0);
            if x.1 == z.1 {
                lemma_bytes_le_antisym(x.1, y.1, 0);
                assert(x.1 =~= y.1);
            }
        }
    }
}

fn bytes_le_exec(a: &Vec<u8>, b: &Vec<u8>, k: usize) -> (r: bool)
    requires
        k <= a@.len(),
    ensures
        r == bytes_le_from(a@, b@, k as int),
    decreases a@.len() - k,
{
    if k >= a.len() {
        true
    } else if k >= b.len() {
        false
    } else if a[k] < b[k] {
        true
    } else if a[k] > b[k] {
        false
    } else {
        bytes_le_exec(a, b, k + 1)
    }
}

fn tuple_le_exec(x: &IdTuple, y: &IdTuple) -> (r: bool)
    ensures
        r == tuple_le(tv(*x), tv(*y)),
{
    let mut same = x.oid.len() == y.oid.len();
    let mut m: usize = 0;
    while same && m < x.oid.len()
        invariant
            m <= x.oid@.len(),
            same ==> x.oid@.len() == y.oid@.len(),
            same ==> forall|q: int| 0 <= q < m ==> x.oid@[q] == y.oid@[q],
            !same ==> x.oid@ != y.oid@,
        decreases x.oid@.len() - m, (if same { 1int } else { 0int }),
    {
        if x.oid[m] != y.oid[m] {
            same = false;
        } else {
            m = m + 1;
        }
    }
    proof {
        if same {
            assert(x.oid@ =~= y.oid@);
        }
    }
    if same {
        if x.pack_offset == y.pack_offset {
            x.crc32 <= y.crc32
        } else {
            x.pack_offset < y.pack_offset
        }
    } else {
        bytes_le_exec(&x.oid, &y.oid, 0)
    }
}



pub proof fn lemma_tuple_le_total(x: (u64, Seq<u8>, u32), y: (u64, Seq<u8>, u32))
    ensures
        tuple_le(x, y) || tuple_le(y, x),
{
    lemma_bytes_le_total(x.1, y.1, 0);
}

pub proof fn lemma_tuple_le_trans(x: (u64, Seq<u8>, u32), y: (u64, Seq<u8>, u32), z: (u64, Seq<u8>, u32))
    requires
        tuple_le(x, y),
        tuple_le(y, z),
    ensures
        tuple_le(x, z),
{
    if x.1 == y.1 || y.1 == z.1 {
    } else {
        lemma_bytes_le_trans(x.1, y.1, z.1, 0);
        if x.1 == z.1 {
            lemma_bytes_le_antisym(x.1, y.1, 0);
            assert(x.1 =~= y.1);
        }
    }
}

/// Some entry starts at this offset.
pub open spec fn has_some_offset(es: Seq<data::Entry>, ofs: u64) -> bool {
    exists|k: int| 0 <= k < es.len() && (#[trigger] es[k].pack_offset) == ofs
}

/// Every tuple's offset points at an entry.
pub open spec fn offsets_present(es: Seq<data::Entry>, ts: Seq<IdTuple>) -> bool {
    forall|m: int| 0 <= m < ts.len() ==> #[trigger] has_some_offset(es, ts[m].pack_offset)
}

/// Inserting anywhere adds one element to the multiset.
proof fn lemma_multiset_insert<A>(s: Seq<A>, i: int, x: A)
    requires
        0 <= i <= s.len(),
    ensures
        s.insert(i, x).to_multiset() == s.to_multiset().insert(x),
{
    broadcast use vstd::seq_lib::group_to_multiset_ensures;

    let left = s.subrange(0, i);
    let right = s.subrange(i, s.len() as int);
    assert(s.insert(i, x) =~= left + (seq![x] + right));
    vstd::seq_lib::lemma_multiset_commutative(left, seq![x] + right);
    vstd::seq_lib::lemma_multiset_commutative(seq![x], right);
    assert(s =~= left + right);
    vstd::seq_lib::lemma_multiset_commutative(left, right);
    assert(seq![x] =~= Seq::<A>::empty().push(x));
    assert(seq![x].to_multiset() == Seq::<A>::empty().to_multiset().insert(x));
    assert(s.insert(i, x).to_multiset() =~= s.to_multiset().insert(x));
}

/// Sort the tuples by object id (pack offset and CRC32 breaking ties); the
/// result is the unique sorted permutation of the input.
#[verifier::rlimit(100)]
pub fn sort_tuples(v: Vec<IdTuple>) -> (r: Vec<IdTuple>)
    ensures
        tvs(r@) == tvs(v@).sort_by(tleq()),
        r@.len() == v@.len(),
{
    let ghost leq = tleq();
    proof {
        lemma_tuple_le_total_ordering();
    }
    let mut out: Vec<IdTuple> = Vec::new();
    proof {
        assert(tvs(out@) =~= tvs(v@.subrange(0, 0)));
    }
    let mut i: usize = 0;
    while i < v.len()
        invariant
            i <= v@.len(),
            out@.len() == i,
            vstd::relations::sorted_by(tvs(out@), tleq()),
            tvs(out@).to_multiset() == tvs(v@.subrange(0, i as int)).to_multiset(),
        decreases v@.len() - i,
    {
        broadcast use vstd::seq_lib::group_to_multiset_ensures;

        let ghost leq = tleq();
        let t = clone_tuple(&v[i]);
        // find the first position whose element does not precede `t`
        let mut pos: usize = 0;
        while pos < out.len() && tuple_le_exec(&out[pos], &t)
            invariant
                pos <= out@.len(),
                forall|q: int| 0 <= q < pos ==> tuple_le(tv(#[trigger] out@[q]), tv(t)),
            decreases out@.len() - pos,
        {
            pos = pos + 1;
        }
        let ghost out_old = out@;
        out.insert(pos, t);
        proof {
            lemma_tuple_le_total_ordering();
            let s1 = tvs(out_old);
            let s2 = tvs(out@);
            let p = pos as int;
            assert(s2 =~= s1.insert(p, tv(t)));
            lemma_multiset_insert(s1, p, tv(t));
            assert(forall|q: int| 0 <= q < p ==> s2[q] == s1[q]);
            assert(s2[p] == tv(t));
            assert(forall|q: int| p < q < s2.len() ==> s2[q] == s1[q - 1]);
            assert(vstd::relations::sorted_by(s1, tleq()));
            assert forall|a: int, b: int| 0 <= a < b < s2.len() implies tleq()(s2[a], s2[b]) by {
                if b < p {
                } else if a < p && b == p {
                    assert(tuple_le(tv(out_old[a]), tv(t)));
                } else if a < p && b > p {
                    if a == b - 1 {
                        lemma_bytes_le_total(s2[a].1, s2[a].1, 0);
                    }
                    assert(tleq()(s1[a], s1[b - 1]));
                } else if a == p {
                    assert(p < s1.len());
                    assert(!tuple_le(tv(out_old[p]), tv(t)));
                    lemma_tuple_le_total(tv(t), tv(out_old[p]));
                    assert(tleq()(tv(t), s1[p]));
                    if b - 1 > p {
                        assert(tleq()(s1[p], s1[b - 1]));
                        lemma_tuple_le_trans(tv(t), s1[p], s1[b - 1]);
                    }
                } else {
                    assert(tleq()(s1[a - 1], s1[b - 1]));
                }
            }
            assert(vstd::relations::sorted_by(s2, tleq()));
            assert(tvs(v@.subrange(0, i as int + 1)) =~= tvs(v@.subrange(0, i as int)).push(
                tv(v@[i as int]),
            ));
            broadcast use vstd::seq_lib::group_to_multiset_ensures;

            assert(tvs(out@).to_multiset() == tvs(v@.subrange(0, i as int + 1)).to_multiset());
        }
        i = i + 1;
    }
    proof {
        assert(v@.subrange(0, v@.len() as int) =~= v@);
        lemma_tuple_le_total_ordering();
        tvs(v@).lemma_sort_by_ensures(tleq());
        vstd::seq_lib::lemma_sorted_unique(tvs(out@), tvs(v@).sort_by(tleq()), tleq());
    }
    out
}

fn clone_tuple(t: &IdTuple) -> (r: IdTuple)
    ensures
        tv(r) == tv(*t),
        r.pack_offset == t.pack_offset,
        r.oid@ == t.oid@,
        r.crc32 == t.crc32,
{
    IdTuple { pack_offset: t.pack_offset, oid: clone_bytes(&t.oid), crc32: t.crc32 }
}

// ---------------------------------------------------------------------------
// CRC backfill.
// ---------------------------------------------------------------------------
/// The CRC32 code of the entry that starts at offset `ofs`.
pub open spec fn crc_at(es: Seq<data::Entry>, ofs: u64) -> u32 {
    crc32_of(data::on_pack_bytes(es[find_ofs(es, ofs)]))
}

/// A tuple with its CRC32 code copied over from the entry table.
pub open spec fn backfilled(es: Seq<data::Entry>, t: (u64, Seq<u8>, u32)) -> (u64, Seq<u8>, u32) {
    (t.0, t.1, crc_at(es, t.0))
}

/// Copy each tuple's CRC32 code over from the entry table record with its
/// pack offset.
#[verifier::rlimit(100)]
pub fn crc_backfill(
    Ghost(es): Ghost<Seq<data::Entry>>,
    table: &Vec<Entry>,
    v: &mut Vec<IdTuple>,
)
    requires
        wf_model(es),
        table_matches(es, table@),
        offsets_present(es, old(v)@),
    ensures
        tvs(final(v)@) == tvs(old(v)@).map_values(|t: (u64, Seq<u8>, u32)| backfilled(es, t)),
{
    let mut m: usize = 0;
    while m < v.len()
        invariant
            wf_model(es),
            table_matches(es, table@),
            m <= v@.len(),
            v@.len() == old(v)@.len(),
            forall|q: int| m <= q < v@.len() ==> #[trigger] v@[q] == old(v)@[q],
            offsets_present(es, old(v)@),
            forall|q: int|
                0 <= q < m ==> tv(#[trigger] v@[q]) == backfilled(es, tv(old(v)@[q])),
        decreases v@.len() - m,
    {
        let ofs = v[m].pack_offset;
        proof {
            assert(v@[m as int] == old(v)@[m as int]);
            assert(has_some_offset(es, old(v)@[m as int].pack_offset));
        }
        let p = match find_index_by_offset(table, Ghost(es), table.len(), ofs) {
            Some(p) => p,
            None => {
                proof {
                    let k = choose|k: int|
                        0 <= k < es.len() && (#[trigger] es[k].pack_offset) == ofs;
                    assert(false);
                }
                0
            },
        };
        let crc = table[p].crc32;
        proof {
            lemma_find_self(es, p as int);
            assert(table@[p as int] == record_of(es[p as int]));
        }
        let slot = &mut v[m];
        slot.crc32 = crc;
        m = m + 1;
    }
    proof {
        assert(tvs(v@) =~= tvs(old(v)@).map_values(|t: (u64, Seq<u8>, u32)| backfilled(es, t)));
    }
}

// ---------------------------------------------------------------------------
// The reducer.
// ---------------------------------------------------------------------------
/// Collects resolver outputs and checks that they add up to the ingested
/// object count.
pub struct Reducer {
    pub items: Vec<IdTuple>,
    pub expected: u32,
}

impl Reducer {
    pub fn new(expected: u32) -> (r: Reducer)
        ensures
            r.items@.len() == 0,
            r.expected == expected,
    {
        Reducer { items: Vec::new(), expected }
    }

    /// Take one worker batch over.
    pub fn feed(&mut self, mut batch: Vec<IdTuple>)
        ensures
            final(self).items@ == old(self).items@ + batch@,
            final(self).expected == old(self).expected,
    {
        let ghost b0 = batch@;
        let mut taken = batch;
        let ghost items0 = self.items@;
        self.items.append(&mut taken);
    }

    /// Hand the collected tuples out, or report the count mismatch.
    pub fn finalize(self) -> (r: Result<Vec<IdTuple>, Error>)
        ensures
            match r {
                Ok(items) => items@ == self.items@ && items@.len() == self.expected,
                Err(e) => e == Error::ObjectCountMismatch && self.items@.len() != self.expected,
            },
    {
        if self.items.len() == self.expected as usize {
            Ok(self.items)
        } else {
            Err(Error::ObjectCountMismatch)
        }
    }
}


// ---------------------------------------------------------------------------
// Encoding the index.
// ---------------------------------------------------------------------------
pub open spec fn be32(x: u32) -> Seq<u8> {
    seq![
        ((x >> 24) & 0xff) as u8,
        ((x >> 16) & 0xff) as u8,
        ((x >> 8) & 0xff) as u8,
        (x & 0xff) as u8,
    ]
}

pub open spec fn be64(x: u64) -> Seq<u8> {
    seq![
        ((x >> 56) & 0xff) as u8,
        ((x >> 48) & 0xff) as u8,
        ((x >> 40) & 0xff) as u8,
        ((x >> 32) & 0xff) as u8,
        ((x >> 24) & 0xff) as u8,
        ((x >> 16) & 0xff) as u8,
        ((x >> 8) & 0xff) as u8,
        (x & 0xff) as u8,
    ]
}

pub open spec fn first_byte(t: (u64, Seq<u8>, u32)) -> int {
    if t.1.len() > 0 {
        t.1[0] as int
    } else {
        0
    }
}

/// How many of the first `upto` ids start with a byte at most `b`.
pub open spec fn count_fb_le(s: Seq<(u64, Seq<u8>, u32)>, b: int, upto: int) -> int
    decreases upto,
{
    if upto <= 0 {
        0
    } else {
        count_fb_le(s, b, upto - 1) + if first_byte(s[upto - 1]) <= b {
            1int
        } else {
            0int
        }
    }
}

/// The 256-entry cumulative fan-out table, rows 0 through `b`.
pub open spec fn fanout_bytes(s: Seq<(u64, Seq<u8>, u32)>, b: int) -> Seq<u8>
    decreases b + 1,
{
    if b < 0 {
        Seq::empty()
    } else {
        fanout_bytes(s, b - 1) + be32(count_fb_le(s, b, s.len() as int) as u32)
    }
}

pub open spec fn ids_bytes(s: Seq<(u64, Seq<u8>, u32)>, upto: int) -> Seq<u8>
    decreases upto,
{
    if upto <= 0 {
        Seq::empty()
    } else {
        ids_bytes(s, upto - 1) + s[upto - 1].1
    }
}

pub open spec fn crc_bytes(s: Seq<(u64, Seq<u8>, u32)>, upto: int) -> Seq<u8>
    decreases upto,
{
    if upto <= 0 {
        Seq::empty()
    } else {
        crc_bytes(s, upto - 1) + be32(s[upto - 1].2)
    }
}

/// How many of the first `upto` offsets need the 64-bit table.
pub open spec fn n_large(s: Seq<(u64, Seq<u8>, u32)>, upto: int) -> int
    decreases upto,
{
    if upto <= 0 {
        0
    } else {
        n_large(s, upto - 1) + if s[upto - 1].0 >= 0x8000_0000 {
            1int
        } else {
            0int
        }
    }
}

pub open spec fn large_word(n: int) -> u32 {
    ((0x8000_0000 + n) % 0x1_0000_0000) as u32
}

pub open spec fn ofs32_bytes(s: Seq<(u64, Seq<u8>, u32)>, upto: int) -> Seq<u8>
    decreases upto,
{
    if upto <= 0 {
        Seq::empty()
    } else {
        ofs32_bytes(s, upto - 1) + (if s[upto - 1].0 < 0x8000_0000 {
            be32(s[upto - 1].0 as u32)
        } else {
            be32(large_word(n_large(s, upto - 1)))
        })
    }
}

pub open spec fn ofs64_bytes(s: Seq<(u64, Seq<u8>, u32)>, upto: int) -> Seq<u8>
    decreases upto,
{
    if upto <= 0 {
        Seq::empty()
    } else {
        ofs64_bytes(s, upto - 1) + (if s[upto - 1].0 >= 0x8000_0000 {
            be64(s[upto - 1].0)
        } else {
            Seq::empty()
        })
    }
}

/// Everything the index holds before its own trailing hash: magic, version,
/// fan-out, ids, CRC32 codes, offsets and the pack hash.
pub open spec fn index_payload(s: Seq<(u64, Seq<u8>, u32)>, pack_hash: Seq<u8>) -> Seq<u8> {
    seq![255u8, 116u8, 79u8, 99u8] + be32(2) + fanout_bytes(s, 255) + ids_bytes(
        s,
        s.len() as int,
    ) + crc_bytes(s, s.len() as int) + ofs32_bytes(s, s.len() as int) + ofs64_bytes(
        s,
        s.len() as int,
    ) + pack_hash
}

/// The full index bytestream: the payload and the digest over it.
pub open spec fn index_bytes(s: Seq<(u64, Seq<u8>, u32)>, pack_hash: Seq<u8>) -> Seq<u8> {
    index_payload(s, pack_hash) + sha1_of(index_payload(s, pack_hash))
}

fn push_be32(out: &mut Vec<u8>, x: u32)
    ensures
        final(out)@ == old(out)@ + be32(x),
{
    out.push(((x >> 24) & 0xff) as u8);
    out.push(((x >> 16) & 0xff) as u8);
    out.push(((x >> 8) & 0xff) as u8);
    out.push((x & 0xff) as u8);
    assert(out@ =~= old(out)@ + be32(x));
}

fn push_be64(out: &mut Vec<u8>, x: u64)
    ensures
        final(out)@ == old(out)@ + be64(x),
{
    out.push(((x >> 56) & 0xff) as u8);
    out.push(((x >> 48) & 0xff) as u8);
    out.push(((x >> 40) & 0xff) as u8);
    out.push(((x >> 32) & 0xff) as u8);
    out.push(((x >> 24) & 0xff) as u8);
    out.push(((x >> 16) & 0xff) as u8);
    out.push(((x >> 8) & 0xff) as u8);
    out.push((x & 0xff) as u8);
    assert(out@ =~= old(out)@ + be64(x));
}

/// Encode the sorted, backfilled tuples and the pack hash; the index's own
/// hash is returned and stands at the stream's end.
#[verifier::rlimit(100)]
pub fn encode_index(tuples: &Vec<IdTuple>, pack_hash: &Vec<u8>, out: &mut Vec<u8>) -> (ih: Vec<
    u8,
>)
    requires
        tuples@.len() <= u32::MAX,
    ensures
        final(out)@ == old(out)@ + index_bytes(tvs(tuples@), pack_hash@),
        ih@ == sha1_of(index_payload(tvs(tuples@), pack_hash@)),
        ih@.len() == 20,
{
    let ghost s = tvs(tuples@);
    let n = tuples.len();
    let mut body: Vec<u8> = Vec::new();
    body.push(255);
    body.push(116);
    body.push(79);
    body.push(99);
    push_be32(&mut body, 2);
    assert(body@ =~= seq![255u8, 116u8, 79u8, 99u8] + be32(2));
    let ghost head = body@;
    // fan-out table
    let mut b: usize = 0;
    while b < 256
        invariant
            s == tvs(tuples@),
            n == tuples@.len(),
            n <= u32::MAX,
            b <= 256,
            body@ == head + fanout_bytes(s, b as int - 1),
        decreases 256 - b,
    {
        let mut count: u32 = 0;
        let mut m: usize = 0;
        while m < n
            invariant
                s == tvs(tuples@),
                n == tuples@.len(),
                n <= u32::MAX,
                m <= n,
                count <= m,
                count == count_fb_le(s, b as int, m as int),
            decreases n - m,
        {
            let t = &tuples[m];
            let fb: usize = if t.oid.len() > 0 {
                t.oid[0] as usize
            } else {
                0
            };
            if fb <= b {
                count = count + 1;
            }
            m = m + 1;
        }
        push_be32(&mut body, count);
        assert(body@ =~= head + fanout_bytes(s, b as int));
        b = b + 1;
    }
    let ghost head2 = head + fanout_bytes(s, 255);
    // id table
    let mut m: usize = 0;
    while m < n
        invariant
            s == tvs(tuples@),
            n == tuples@.len(),
            m <= n,
            body@ == head2 + ids_bytes(s, m as int),
        decreases n - m,
    {
        append_bytes(&mut body, &tuples[m].oid);
        assert(body@ =~= head2 + ids_bytes(s, m as int + 1));
        m = m + 1;
    }
    let ghost head3 = head2 + ids_bytes(s, s.len() as int);
    // CRC32 table
    let mut m: usize = 0;
    while m < n
        invariant
            s == tvs(tuples@),
            n == tuples@.len(),
            m <= n,
            body@ == head3 + crc_bytes(s, m as int),
        decreases n - m,
    {
        push_be32(&mut body, tuples[m].crc32);
        assert(body@ =~= head3 + crc_bytes(s, m as int + 1));
        m = m + 1;
    }
    let ghost head4 = head3 + crc_bytes(s, s.len() as int);
    // 32-bit offset table, with indices into the 64-bit table
    let mut m: usize = 0;
    let mut n64: u32 = 0;
    while m < n
        invariant
            s == tvs(tuples@),
            n == tuples@.len(),
            n <= u32::MAX,
            m <= n,
            n64 <= m,
            n64 == n_large(s, m as int),
            body@ == head4 + ofs32_bytes(s, m as int),
        decreases n - m,
    {
        let ofs = tuples[m].pack_offset;
        if ofs < 0x8000_0000 {
            push_be32(&mut body, ofs as u32);
        } else {
            let word: u64 = (0x8000_0000u64 + n64 as u64) % 0x1_0000_0000;
            push_be32(&mut body, word as u32);
            n64 = n64 + 1;
        }
        assert(body@ =~= head4 + ofs32_bytes(s, m as int + 1));
        m = m + 1;
    }
    let ghost head5 = head4 + ofs32_bytes(s, s.len() as int);
    // 64-bit offset table
    let mut m: usize = 0;
    while m < n
        invariant
            s == tvs(tuples@),
            n == tuples@.len(),
            m <= n,
            body@ == head5 + ofs64_bytes(s, m as int),
        decreases n - m,
    {
        let ofs = tuples[m].pack_offset;
        if ofs >= 0x8000_0000 {
            push_be64(&mut body, ofs);
        }
        assert(body@ =~= head5 + ofs64_bytes(s, m as int + 1));
        m = m + 1;
    }
    append_bytes(&mut body, pack_hash);
    assert(body@ =~= index_payload(s, pack_hash@));
    let ih = crate::hashing::sha1_digest(body.as_slice());
    append_bytes(out, &body);
    append_bytes(out, &ih);
    assert(out@ =~= old(out)@ + index_bytes(s, pack_hash@));
    ih
}


// ---------------------------------------------------------------------------
// The top-level build.
// ---------------------------------------------------------------------------
/// Every emitted tuple is some entry's tuple.
pub proof fn lemma_emit_elems(es: Seq<data::Entry>, i: int, m: int)
    requires
        wf_model(es),
        0 <= i < es.len(),
        0 <= m < emit(es, i).len(),
    ensures
        exists|k: int| 0 <= k < es.len() && emit(es, i)[m] == #[trigger] tuple_of(es, k),
    decreases es.len() - i, es.len() + 1 - i,
{
    if m == 0 {
        assert(emit(es, i)[0] == tuple_of(es, i));
    } else {
        lemma_emit_children_elems(es, i, i + 1, m - 1);
    }
}

pub proof fn lemma_emit_children_elems(es: Seq<data::Entry>, i: int, from: int, m: int)
    requires
        wf_model(es),
        0 <= i < es.len(),
        0 <= m < emit_children(es, i, from).len(),
    ensures
        exists|k: int|
            0 <= k < es.len() && emit_children(es, i, from)[m] == #[trigger] tuple_of(es, k),
    decreases es.len() - i, es.len() - from,
{
    if from >= es.len() || from <= i {
    } else {
        let headlen = if dep(es, from, i) {
            emit(es, from).len() as int
        } else {
            0
        };
        if m < headlen {
            lemma_emit_elems(es, from, m);
        } else {
            lemma_emit_children_elems(es, i, from + 1, m - headlen);
        }
    }
}

pub proof fn lemma_emit_range_elems(es: Seq<data::Entry>, u: int, m: int)
    requires
        wf_model(es),
        u <= es.len(),
        0 <= m < emit_range(es, u).len(),
    ensures
        exists|k: int| 0 <= k < es.len() && emit_range(es, u)[m] == #[trigger] tuple_of(es, k),
    decreases u,
{
    if u > 0 {
        let prevlen = emit_range(es, u - 1).len() as int;
        if m < prevlen {
            lemma_emit_range_elems(es, u - 1, m);
        } else {
            lemma_emit_elems(es, u - 1, m - prevlen);
        }
    }
}

/// Every delta chain in the stream can be materialized.
pub open spec fn all_materializable(es: Seq<data::Entry>) -> bool {
    forall|k: int| 0 <= k < es.len() ==> (#[trigger] materialized(es, k)) is Some
}

/// The tuples of the whole stream, sorted by object id.
pub open spec fn sorted_tuples(es: Seq<data::Entry>) -> Seq<(u64, Seq<u8>, u32)> {
    emit_range(es, last_base(es, es.len() as int) + 1).sort_by(tleq())
}

/// The rows of the finished index: sorted and with the CRC32 codes filled
/// in.
pub open spec fn final_tuples(es: Seq<data::Entry>) -> Seq<(u64, Seq<u8>, u32)> {
    sorted_tuples(es).map_values(|t: (u64, Seq<u8>, u32)| backfilled(es, t))
}

/// The pack's trailing content hash, as the final entry carries it.
pub open spec fn pack_trailer(es: Seq<data::Entry>) -> Seq<u8> {
    match es.last().trailer {
        Some(t) => t@,
        None => Seq::empty(),
    }
}

/// An index file that reads the index-writing surface.
pub struct File {}

impl File {
    /// Build a pack index from an ordered stream of decoded pack entries and
    /// append it to `out`.
    ///
    /// Neither in-pack nor out-of-pack reference deltas are supported here;
    /// they must have been resolved beforehand. The output does not depend
    /// on `thread_limit`, and nothing is written unless the whole index can
    /// be.
    #[verifier::rlimit(100)]
    pub fn write_data_iter_to_stream(
        kind: Kind,
        mode: Mode,
        entries: &Vec<data::Entry>,
        thread_limit: Option<usize>,
        out: &mut Vec<u8>,
    ) -> (r: Result<Outcome, Error>)
        requires
            forall|i: int|
                0 <= i < entries@.len() ==> (#[trigger] entries@[i]).compressed@.len()
                    <= u64::MAX - 32,
        ensures
            match r {
                Err(e) => {
                    &&& final(out)@ == old(out)@
                    &&& if kind != Kind::V2 {
                        e == Error::Unsupported(kind)
                    } else if ingest_err(entries@) is Some {
                        Some(e) == ingest_err(entries@)
                    } else if !all_materializable(entries@) {
                        e matches Error::DeltaApplication(_)
                    } else {
                        e == Error::IteratorInvariantTrailer && entries@.last().trailer is None
                    }
                },
                Ok(o) => {
                    &&& kind == Kind::V2
                    &&& ingest_err(entries@) is None
                    &&& all_materializable(entries@)
                    &&& entries@.last().trailer is Some
                    &&& final(out)@ == old(out)@ + index_bytes(
                        final_tuples(entries@),
                        pack_trailer(entries@),
                    )
                    &&& o.index_kind == Kind::V2
                    &&& o.num_objects == entries@.len()
                    &&& o.pack_hash@ == pack_trailer(entries@)
                    &&& o.index_hash@ == sha1_of(
                        index_payload(final_tuples(entries@), pack_trailer(entries@)),
                    )
                    &&& final_tuples(entries@).len() == entries@.len()
                    &&& vstd::relations::sorted_by(final_tuples(entries@), tleq())
                },
            },
    {
        let ghost es = entries@;
        let ghost n = es.len() as int;
        if kind != Kind::default() {
            return Err(Error::Unsupported(kind));
        }
        let ing = match ingest(&mode, entries) {
            Err(e) => {
                return Err(e);
            },
            Ok(ing) => ing,
        };
        let mut ing = ing;
        let num_objects = ing.num_objects;
        let last_base_index = ing.last_base_index;
        let table = ing.index_entries;
        let mut cache = ing.cache;
        proof {
            lemma_last_base_in_range(es, last_base_index as int);
        }
        let mut work: Vec<IdTuple> = Vec::new();
        match apply_deltas(entries, &table, &mut cache, last_base_index + 1, &mut work) {
            Err(e) => {
                proof {
                    assert(!all_materializable(es));
                }
                return Err(e);
            },
            Ok(()) => {},
        }
        proof {
            // every entry lies in a subtree rooted at or before the last base
            assert forall|k: int| 0 <= k < n implies (#[trigger] cache@[k]).resolved by {
                lemma_coverage(es, k);
                let b = choose|b: int|
                    0 <= b <= k && #[trigger] is_base_at(es, b) && #[trigger] in_subtree(es, b, k);
                lemma_last_base_max(es, b, n);
                assert(resolved_upto(es, last_base_index as int + 1, k));
            }
            lemma_n_resolved_all(cache@, n);
            assert(work@.len() == n);
            assert(all_materializable(es)) by {
                assert forall|k: int| 0 <= k < n implies (#[trigger] materialized(es, k)) is Some by {
                    assert(cache@[k].resolved);
                }
            }
        }
        let mut reducer = Reducer::new(num_objects);
        reducer.feed(work);
        let items = match reducer.finalize() {
            Ok(items) => items,
            Err(_) => {
                proof {
                    assert(false);
                }
                return Err(Error::ObjectCountMismatch);
            },
        };
        let mut sorted = sort_tuples(items);
        proof {
            lemma_tuple_le_total_ordering();
            let ghost raw = emit_range(es, last_base_index as int + 1);
            raw.lemma_sort_by_ensures(tleq());
            assert(tvs(sorted@) == sorted_tuples(es));
            broadcast use vstd::seq_lib::group_to_multiset_ensures;

            assert forall|m: int|
                0 <= m < sorted@.len() implies #[trigger] has_some_offset(
                es,
                sorted@[m].pack_offset,
            ) by {
                let x = tvs(sorted@)[m];
                assert(tvs(sorted@).to_multiset().contains(x));
                assert(raw.to_multiset().contains(x));
                assert(raw.contains(x));
                let q = choose|q: int| 0 <= q < raw.len() && raw[q] == x;
                lemma_emit_range_elems(es, last_base_index as int + 1, q);
                let k = choose|k: int| 0 <= k < es.len() && raw[q] == #[trigger] tuple_of(es, k);
                assert(es[k].pack_offset == x.0);
                assert(x.0 == sorted@[m].pack_offset);
            }
        }
        crc_backfill(Ghost(es), &table, &mut sorted);
        proof {
            assert(tvs(sorted@) == final_tuples(es));
            assert(vstd::relations::sorted_by(final_tuples(es), tleq())) by {
                lemma_tuple_le_total_ordering();
                let st = sorted_tuples(es);
                let ft = final_tuples(es);
                assert forall|a: int, b: int| 0 <= a < b < ft.len() implies tleq()(
                    ft[a],
                    ft[b],
                ) by {
                    assert(tleq()(st[a], st[b]));
                    assert(ft[a] == backfilled(es, st[a]));
                    assert(ft[b] == backfilled(es, st[b]));
                }
            }
        }
        let pack_hash = match ing.pack_hash {
            Some(h) => h,
            None => {
                return Err(Error::IteratorInvariantTrailer);
            },
        };
        let index_hash = encode_index(&sorted, &pack_hash, out);
        Ok(Outcome { index_kind: kind, index_hash, pack_hash, num_objects })
    }
}

/// The last base's index is a real position when ingestion succeeded.
pub proof fn lemma_last_base_in_range(es: Seq<data::Entry>, lb: int)
    requires
        lb == last_base(es, es.len() as int),
        lb >= 0,
    ensures
        lb < es.len(),
        is_base_at(es, lb),
    decreases es.len(),
{
    lemma_last_base_rec(es, es.len() as int);
}

proof fn lemma_last_base_rec(es: Seq<data::Entry>, upto: int)
    requires
        upto <= es.len(),
    ensures
        last_base(es, upto) == -1 || (0 <= last_base(es, upto) < upto && is_base_at(
            es,
            last_base(es, upto),
        )),
    decreases upto,
{
    if upto > 0 && !is_base_at(es, upto - 1) {
        lemma_last_base_rec(es, upto - 1);
    }
}


// ---------------------------------------------------------------------------
// Laws of the finished index.
// ---------------------------------------------------------------------------
/// Every row of the finished index is the backfilled tuple of some entry of
/// the stream.
pub proof fn lemma_final_provenance(es: Seq<data::Entry>, m: int)
    requires
        wf_model(es),
        0 <= m < final_tuples(es).len(),
    ensures
        exists|k: int|
            0 <= k < es.len() && final_tuples(es)[m] == backfilled(es, #[trigger] tuple_of(es, k)),
{
    broadcast use vstd::seq_lib::group_to_multiset_ensures;

    lemma_tuple_le_total_ordering();
    let raw = emit_range(es, last_base(es, es.len() as int) + 1);
    raw.lemma_sort_by_ensures(tleq());
    let st = sorted_tuples(es);
    let x = st[m];
    assert(st.to_multiset().contains(x));
    assert(raw.contains(x));
    let q = choose|q: int| 0 <= q < raw.len() && raw[q] == x;
    lemma_last_base_rec(es, es.len() as int);
    lemma_emit_range_elems(es, last_base(es, es.len() as int) + 1, q);
    let k = choose|k: int| 0 <= k < es.len() && raw[q] == #[trigger] tuple_of(es, k);
    assert(final_tuples(es)[m] == backfilled(es, tuple_of(es, k)));
}

/// The id table is strictly ordered wherever the ids are pairwise distinct.
/// Two identical objects stored at two offsets would share an id; for such
/// a stream only the non-strict order below holds.
pub proof fn lemma_id_table_strict(s: Seq<(u64, Seq<u8>, u32)>, i: int, j: int)
    requires
        vstd::relations::sorted_by(s, tleq()),
        0 <= i < j < s.len(),
        s[i].1 != s[j].1,
    ensures
        bytes_le(s[i].1, s[j].1),
        s[i].1 != s[j].1,
{
    assert(tleq()(s[i], s[j]));
}

/// Every row's CRC32 code is the code over the on-pack bytes of the entry
/// its offset names.
pub proof fn lemma_crc_matches(es: Seq<data::Entry>, m: int)
    requires
        wf_model(es),
        0 <= m < final_tuples(es).len(),
    ensures
        exists|k: int|
            0 <= k < es.len() && final_tuples(es)[m].0 == (#[trigger] es[k]).pack_offset
                && final_tuples(es)[m].2 == crc32_of(data::on_pack_bytes(es[k])),
{
    lemma_final_provenance(es, m);
    let k = choose|k: int|
        0 <= k < es.len() && final_tuples(es)[m] == backfilled(es, #[trigger] tuple_of(es, k));
    lemma_find_self(es, k);
    assert(final_tuples(es)[m].0 == es[k].pack_offset);
    assert(final_tuples(es)[m].2 == crc32_of(data::on_pack_bytes(es[k])));
}

/// Round trip: every id in the table is the digest of the canonical form of
/// the object materialized at the offset beside it.
pub proof fn lemma_round_trip(es: Seq<data::Entry>, m: int)
    requires
        wf_model(es),
        all_materializable(es),
        0 <= m < final_tuples(es).len(),
    ensures
        exists|k: int|
            {
                &&& 0 <= k < es.len()
                &&& final_tuples(es)[m].0 == (#[trigger] es[k]).pack_offset
                &&& materialized(es, k) is Some
                &&& final_tuples(es)[m].1 == sha1_of(
                    loose_header(okind(es, k), materialized(es, k)->Some_0.len() as int)
                        + materialized(es, k)->Some_0,
                )
            },
{
    lemma_final_provenance(es, m);
    let k = choose|k: int|
        0 <= k < es.len() && final_tuples(es)[m] == backfilled(es, #[trigger] tuple_of(es, k));
    assert(materialized(es, k) is Some);
    assert(final_tuples(es)[m].1 == oid_of(es, k));
}

/// The index bytes are a function of the entry stream alone; in particular
/// two builds with different thread limits are byte-identical.
pub proof fn lemma_thread_limit_independent(es: Seq<data::Entry>, b1: Seq<u8>, b2: Seq<u8>)
    requires
        b1 == index_bytes(final_tuples(es), pack_trailer(es)),
        b2 == index_bytes(final_tuples(es), pack_trailer(es)),
    ensures
        b1 == b2,
{
}

} // verus!
