//! The shape of an uncompressed tag tree: where each node ends, whether
//! every length field is non-negative and fits in the bytes, and whether
//! the nesting stays within a fixed depth.
use vstd::prelude::*;
use crate::region::{be_u32, read_be_u32};

verus! {

/// Deepest nesting of lists and compounds that a chunk tree may have.
pub const MAX_DEPTH: u32 = 512;

/// A big-endian `u16` at `at` in `b`.
pub open spec fn be_u16(b: Seq<u8>, at: int) -> int {
    b[at] as int * 256 + b[at + 1] as int
}

/// Bytes of a fixed-size payload: byte, short, int, long, float, double.
pub open spec fn fixed_size(ty: int) -> int {
    if ty == 1 {
        1
    } else if ty == 2 {
        2
    } else if ty == 3 {
        4
    } else if ty == 4 {
        8
    } else if ty == 5 {
        4
    } else if ty == 6 {
        8
    } else {
        0
    }
}

/// Bytes of one element of an array payload: byte, int and long arrays.
pub open spec fn array_unit(ty: int) -> int {
    if ty == 7 {
        1
    } else if ty == 11 {
        4
    } else if ty == 12 {
        8
    } else {
        0
    }
}

/// Where the payload of type `ty` that starts at `pos` ends, if it is
/// well formed: known type, non-negative lengths that fit in `b`, and lists
/// and compounds nested at most `depth` deep.
pub open spec fn payload_end(b: Seq<u8>, pos: int, ty: int, depth: nat) -> Option<int>
    decreases depth, 0int, 0int,
{
    if pos < 0 || pos > b.len() {
        None
    } else if 1 <= ty <= 6 {
        if pos + fixed_size(ty) <= b.len() {
            Some(pos + fixed_size(ty))
        } else {
            None
        }
    } else if ty == 7 || ty == 11 || ty == 12 {
        if pos + 4 <= b.len() && be_u32(b, pos) < 0x8000_0000 && pos + 4 + array_unit(ty) * be_u32(
            b,
            pos,
        ) <= b.len() {
            Some(pos + 4 + array_unit(ty) * be_u32(b, pos))
        } else {
            None
        }
    } else if ty == 8 {
        if pos + 2 <= b.len() && pos + 2 + be_u16(b, pos) <= b.len() {
            Some(pos + 2 + be_u16(b, pos))
        } else {
            None
        }
    } else if ty == 9 {
        if depth == 0 || pos + 5 > b.len() {
            None
        } else {
            let et = b[pos] as int;
            let n = be_u32(b, pos + 1);
            if n >= 0x8000_0000 || et > 12 || (et == 0 && n > 0) || n > b.len() - (pos + 5) {
                None
            } else {
                elements_end(b, pos + 5, et, n as nat, (depth - 1) as nat)
            }
        }
    } else if ty == 10 {
        if depth == 0 {
            None
        } else {
            entries_end(b, pos, (depth - 1) as nat)
        }
    } else {
        None
    }
}

/// Where `n` payloads of type `ty`, one after another from `pos`, end.
pub open spec fn elements_end(b: Seq<u8>, pos: int, ty: int, n: nat, depth: nat) -> Option<int>
    decreases depth, 1int, n,
{
    if n == 0 {
        Some(pos)
    } else {
        match payload_end(b, pos, ty, depth) {
            Some(p) => elements_end(b, p, ty, (n - 1) as nat, depth),
            None => None,
        }
    }
}

/// Where the named entries of a compound, from `pos` up to and including
/// the end marker, end.
pub open spec fn entries_end(b: Seq<u8>, pos: int, depth: nat) -> Option<int>
    decreases depth, 2int, b.len() - pos,
{
    if pos < 0 || pos >= b.len() {
        None
    } else if b[pos] == 0 {
        Some(pos + 1)
    } else if pos + 3 > b.len() || pos + 3 + be_u16(b, pos + 1) > b.len() {
        None
    } else {
        match payload_end(b, pos + 3 + be_u16(b, pos + 1), b[pos] as int, depth) {
            Some(q) => if pos < q <= b.len() {
                entries_end(b, q, depth)
            } else {
                None
            },
            None => None,
        }
    }
}

/// `b` holds a root compound tag, with its name, whose tree is well formed.
pub open spec fn tree_ok(b: Seq<u8>) -> bool {
    &&& b.len() >= 3
    &&& b[0] == 10
    &&& payload_end(b, 3 + be_u16(b, 1), 10, (MAX_DEPTH + 1) as nat) is Some
}

/// Finds where the payload of type `ty` at `pos` ends; see `payload_end`.
fn payload_end_of(b: &[u8], pos: usize, ty: u8, depth: u32) -> (r: Option<usize>)
    requires
        pos <= b@.len(),
    ensures
        match r {
            Some(p) => payload_end(b@, pos as int, ty as int, depth as nat) == Some(p as int) && p
                <= b@.len(),
            None => payload_end(b@, pos as int, ty as int, depth as nat) is None,
        },
    decreases depth,
{
    let len = b.len();
    if 1 <= ty && ty <= 6 {
        let size: usize = if ty == 1 {
            1
        } else if ty == 2 {
            2
        } else if ty == 3 {
            4
        } else if ty == 4 {
            8
        } else if ty == 5 {
            4
        } else {
            8
        };
        if size <= len - pos {
            Some(pos + size)
        } else {
            None
        }
    } else if ty == 7 || ty == 11 || ty == 12 {
        if len - pos < 4 {
            return None;
        }
        let n = read_be_u32(b, pos);
        let unit: u64 = if ty == 7 {
            1
        } else if ty == 11 {
            4
        } else {
            8
        };
        if n >= 0x8000_0000 || unit * (n as u64) > (len - pos - 4) as u64 {
            None
        } else {
            Some(pos + 4 + (unit * (n as u64)) as usize)
        }
    } else if ty == 8 {
        if len - pos < 2 {
            return None;
        }
        let n = (b[pos] as usize) * 256 + b[pos + 1] as usize;
        if n <= len - pos - 2 {
            Some(pos + 2 + n)
        } else {
            None
        }
    } else if ty == 9 {
        if depth == 0 || len - pos < 5 {
            return None;
        }
        let et = b[pos];
        let n = read_be_u32(b, pos + 1);
        if n >= 0x8000_0000 || et > 12 || (et == 0 && n > 0) || n as u64 > (len - (pos + 5)) as u64 {
            return None;
        }
        let ghost d = (depth - 1) as nat;
        let mut p = pos + 5;
        let mut k: u32 = 0;
        while k < n
            invariant
                p <= b@.len(),
                len == b@.len(),
                k <= n,
                payload_end(b@, pos as int, ty as int, depth as nat) == elements_end(
                    b@,
                    pos + 5,
                    et as int,
                    n as nat,
                    d,
                ),
                depth >= 1,
                d == (depth - 1) as nat,
                elements_end(b@, pos + 5, et as int, n as nat, d) == elements_end(
                    b@,
                    p as int,
                    et as int,
                    (n - k) as nat,
                    d,
                ),
            decreases n - k,
        {
            match payload_end_of(b, p, et, depth - 1) {
                None => return None,
                Some(q) => {
                    p = q;
                },
            }
            k = k + 1;
        }
        Some(p)
    } else if ty == 10 {
        if depth == 0 {
            return None;
        }
        let ghost d = (depth - 1) as nat;
        let mut p = pos;
        loop
            invariant
                pos <= p <= b@.len(),
                len == b@.len(),
                depth >= 1,
                payload_end(b@, pos as int, ty as int, depth as nat) == entries_end(
                    b@,
                    pos as int,
                    d,
                ),
                d == (depth - 1) as nat,
                entries_end(b@, pos as int, d) == entries_end(b@, p as int, d),
            decreases b@.len() - p,
        {
            if p >= len {
                return None;
            }
            let t = b[p];
            if t == 0 {
                return Some(p + 1);
            }
            if len - p < 3 {
                return None;
            }
            let nl = (b[p + 1] as usize) * 256 + b[p + 2] as usize;
            if nl > len - p - 3 {
                return None;
            }
            match payload_end_of(b, p + 3 + nl, t, depth - 1) {
                None => return None,
                Some(q) => {
                    if q <= p {
                        return None;
                    }
                    p = q;
                },
            }
        }
    } else {
        None
    }
}

/// Tells whether `b` holds a well-formed root compound tag; see `tree_ok`.
pub fn tree_shape_ok(b: &[u8]) -> (r: bool)
    ensures
        r == tree_ok(b@),
{
    if b.len() < 3 || b[0] != 10 {
        return false;
    }
    let nl = (b[1] as usize) * 256 + b[2] as usize;
    if nl > b.len() - 3 {
        proof {
            assert(payload_end(b@, 3 + be_u16(b@, 1), 10, (MAX_DEPTH + 1) as nat) is None);
        }
        return false;
    }
    payload_end_of(b, 3 + nl, 10, MAX_DEPTH + 1).is_some()
}

} // verus!
