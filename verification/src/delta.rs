//! Application of a delta instruction stream to a base object's bytes.
//!
//! A delta stream carries the base and target sizes as varints, then a
//! sequence of instructions: a copy from the base, or an insert of literal
//! bytes. The result must come out at exactly the announced target size.

use vstd::prelude::*;

verus! {

/// Parse a varint (7 bits per byte, least significant group first) at
/// position `i`; `None` on truncation or if the value exceeds `u64::MAX`.
pub open spec fn parse_varint(d: Seq<u8>, i: int) -> Option<(int, int)>
    decreases d.len() - i,
{
    if i < 0 || i >= d.len() {
        None
    } else {
        let b = d[i];
        if b < 128 {
            Some((b as int, i + 1))
        } else {
            match parse_varint(d, i + 1) {
                None => None,
                Some((v, j)) => {
                    let w = (b - 128) as int + 128 * v;
                    if w <= u64::MAX as int {
                        Some((w, j))
                    } else {
                        None
                    }
                },
            }
        }
    }
}

/// The copy instruction's arguments at position `j` (after the command byte
/// `c`): `(offset, size, next position)`.
pub open spec fn copy_args(d: Seq<u8>, j: int, c: u8) -> Option<(int, int, int)> {
    let n = (if c & 1 != 0 { 1int } else { 0 }) + (if c & 2 != 0 { 1int } else { 0 })
        + (if c & 4 != 0 { 1int } else { 0 }) + (if c & 8 != 0 { 1int } else { 0 })
        + (if c & 16 != 0 { 1int } else { 0 }) + (if c & 32 != 0 { 1int } else { 0 })
        + (if c & 64 != 0 { 1int } else { 0 });
    if j + n > d.len() {
        None
    } else {
        let p0 = j;
        let o0: int = if c & 1 != 0 { d[p0] as int } else { 0 };
        let p1: int = if c & 1 != 0 { p0 + 1 } else { p0 };
        let o1: int = if c & 2 != 0 { o0 + 0x100 * d[p1] as int } else { o0 };
        let p2: int = if c & 2 != 0 { p1 + 1 } else { p1 };
        let o2: int = if c & 4 != 0 { o1 + 0x1_0000 * d[p2] as int } else { o1 };
        let p3: int = if c & 4 != 0 { p2 + 1 } else { p2 };
        let o3: int = if c & 8 != 0 { o2 + 0x100_0000 * d[p3] as int } else { o2 };
        let p4: int = if c & 8 != 0 { p3 + 1 } else { p3 };
        let s0: int = if c & 16 != 0 { d[p4] as int } else { 0 };
        let p5: int = if c & 16 != 0 { p4 + 1 } else { p4 };
        let s1: int = if c & 32 != 0 { s0 + 0x100 * d[p5] as int } else { s0 };
        let p6: int = if c & 32 != 0 { p5 + 1 } else { p5 };
        let s2: int = if c & 64 != 0 { s1 + 0x1_0000 * d[p6] as int } else { s1 };
        let p7: int = if c & 64 != 0 { p6 + 1 } else { p6 };
        let size: int = if s2 == 0 { 0x1_0000 } else { s2 };
        Some((o3, size, p7))
    }
}

/// Run the instruction stream from position `j` with the output built so
/// far; `None` on any malformed instruction, out-of-range copy, or a result
/// that does not come out at exactly `tsize` bytes.
pub open spec fn run_delta(d: Seq<u8>, j: int, base: Seq<u8>, tsize: int, acc: Seq<u8>) -> Option<
    Seq<u8>,
>
    decreases d.len() - j,
{
    if j == d.len() {
        if acc.len() == tsize {
            Some(acc)
        } else {
            None
        }
    } else if j < 0 || j > d.len() {
        None
    } else {
        let c = d[j];
        if c == 0 {
            None
        } else if c < 128 {
            // insert `c` literal bytes
            if j + 1 + c <= d.len() && acc.len() + c <= tsize {
                run_delta(d, j + 1 + c, base, tsize, acc + d.subrange(j + 1, j + 1 + c))
            } else {
                None
            }
        } else {
            match copy_args(d, j + 1, c) {
                None => None,
                Some((ofs, size, next)) => {
                    if ofs + size <= base.len() && acc.len() + size <= tsize {
                        run_delta(d, next, base, tsize, acc + base.subrange(ofs, ofs + size))
                    } else {
                        None
                    }
                },
            }
        }
    }
}

/// The bytes a delta stream produces from its base, if it is well-formed:
/// the announced base size must match, and the result is bounded by the
/// machine's address space.
pub open spec fn apply_delta_spec(base: Seq<u8>, d: Seq<u8>) -> Option<Seq<u8>> {
    match parse_varint(d, 0) {
        None => None,
        Some((ssize, i)) => {
            if ssize != base.len() {
                None
            } else {
                match parse_varint(d, i) {
                    None => None,
                    Some((tsize, j)) => {
                        if tsize > usize::MAX as int {
                            None
                        } else {
                            run_delta(d, j, base, tsize, Seq::empty())
                        }
                    },
                }
            }
        },
    }
}

fn parse_varint_exec(d: &Vec<u8>, i: usize) -> (r: Option<(u64, usize)>)
    requires
        i <= d@.len(),
    ensures
        match r {
            None => parse_varint(d@, i as int) is None,
            Some((v, j)) => parse_varint(d@, i as int) == Some((v as int, j as int)) && i < j
                <= d@.len(),
        },
    decreases d@.len() - i,
{
    if i >= d.len() {
        None
    } else {
        let b = d[i];
        if b < 128 {
            Some((b as u64, i + 1))
        } else {
            match parse_varint_exec(d, i + 1) {
                None => None,
                Some((v, j)) => {
                    if v <= (u64::MAX - 127) / 128 {
                        Some(((b - 128) as u64 + 128 * v, j))
                    } else {
                        None
                    }
                },
            }
        }
    }
}

/// Append `src[from..to]` to `out`.
fn extend_from(out: &mut Vec<u8>, src: &Vec<u8>, from: usize, to: usize)
    requires
        from <= to <= src@.len(),
    ensures
        final(out)@ == old(out)@ + src@.subrange(from as int, to as int),
{
    let mut k = from;
    while k < to
        invariant
            from <= k <= to <= src@.len(),
            out@ == old(out)@ + src@.subrange(from as int, k as int),
        decreases to - k,
    {
        out.push(src[k]);
        assert(out@ =~= old(out)@ + src@.subrange(from as int, k as int + 1));
        k = k + 1;
    }
}


/// Read a copy instruction's offset and size fields after the command byte.
#[verifier::rlimit(100)]
fn read_copy_args(d: &Vec<u8>, j: usize, c: u8) -> (r: Option<(u64, u64, usize)>)
    requires
        j <= d@.len(),
    ensures
        match r {
            None => copy_args(d@, j as int, c) is None,
            Some((o, s, p)) => copy_args(d@, j as int, c) == Some((o as int, s as int, p as int))
                && j <= p <= d@.len(),
        },
{
    let n: usize = (if c & 1 != 0 { 1usize } else { 0 }) + (if c & 2 != 0 { 1usize } else { 0 })
        + (if c & 4 != 0 { 1usize } else { 0 }) + (if c & 8 != 0 { 1usize } else { 0 }) + (
    if c & 16 != 0 {
        1usize
    } else {
        0
    }) + (if c & 32 != 0 { 1usize } else { 0 }) + (if c & 64 != 0 { 1usize } else { 0 });
    if d.len() - j < n {
        return None;
    }
    let mut p: usize = j;
    let mut ofs: u64 = 0;
    let mut size: u64 = 0;
    if c & 1 != 0 {
        ofs = ofs + d[p] as u64;
        p = p + 1;
    }
    if c & 2 != 0 {
        ofs = ofs + 0x100 * d[p] as u64;
        p = p + 1;
    }
    if c & 4 != 0 {
        ofs = ofs + 0x1_0000 * d[p] as u64;
        p = p + 1;
    }
    if c & 8 != 0 {
        ofs = ofs + 0x100_0000 * d[p] as u64;
        p = p + 1;
    }
    if c & 16 != 0 {
        size = size + d[p] as u64;
        p = p + 1;
    }
    if c & 32 != 0 {
        size = size + 0x100 * d[p] as u64;
        p = p + 1;
    }
    if c & 64 != 0 {
        size = size + 0x1_0000 * d[p] as u64;
        p = p + 1;
    }
    if size == 0 {
        size = 0x1_0000;
    }
    Some((ofs, size, p))
}

/// Apply a delta stream to the base's fully materialized bytes.
pub fn apply_delta(base: &Vec<u8>, d: &Vec<u8>) -> (r: Option<Vec<u8>>)
    ensures
        match r {
            Some(v) => apply_delta_spec(base@, d@) == Some(v@),
            None => apply_delta_spec(base@, d@) is None,
        },
{
    let (ssize, i) = match parse_varint_exec(d, 0) {
        None => {
            return None;
        },
        Some(p) => p,
    };
    if ssize != base.len() as u64 {
        return None;
    }
    let (tsize, start) = match parse_varint_exec(d, i) {
        None => {
            return None;
        },
        Some(p) => p,
    };
    if tsize > usize::MAX as u64 {
        return None;
    }
    let tsize: usize = tsize as usize;
    let mut out: Vec<u8> = Vec::new();
    let mut j: usize = start;
    loop
        invariant
            j <= d@.len(),
            out@.len() <= tsize,
            apply_delta_spec(base@, d@) == run_delta(d@, j as int, base@, tsize as int, out@),
        decreases d@.len() - j,
    {
        if j == d.len() {
            if out.len() == tsize {
                return Some(out);
            } else {
                return None;
            }
        }
        let c = d[j];
        if c == 0 {
            return None;
        } else if c < 128 {
            let n = c as usize;
            if !(n <= d.len() && j + 1 <= d.len() - n && n <= tsize && out.len() <= tsize - n) {
                return None;
            }
            extend_from(&mut out, d, j + 1, j + 1 + n);
            j = j + 1 + n;
        } else {
            // copy from the base
            let (ofs, size, p) = match read_copy_args(d, j + 1, c) {
                None => {
                    return None;
                },
                Some(a) => a,
            };
            if !(ofs <= base.len() as u64 && size <= base.len() as u64 - ofs) {
                return None;
            }
            if !(size <= tsize as u64 && out.len() as u64 <= tsize as u64 - size) {
                return None;
            }
            let o = ofs as usize;
            let s = size as usize;
            extend_from(&mut out, base, o, o + s);
            j = p;
        }
    }
}

} // verus!
