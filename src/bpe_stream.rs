//! Which byte-pair streams the BPE decoder of bpe_rs can read without panicking.
use vstd::prelude::*;

verus! {

/// The decoder's working stack: bpe_rs::bpe::DEFAULT_STACK_SIZE.
pub const BPE_STACK_SIZE: u64 = 5000;

/// Pair nesting deeper than every pair table can hold without a cycle.
pub const BPE_FUEL: u64 = 256;

/// The stack that expanding code `c` takes, looking at most `fuel` pairs deep; `None` where
/// that is not enough, as on a cycle of pairs. A code is a literal where `left` maps it to
/// itself; a pair pushes two codes and expands the left one above the right one.
pub open spec fn bpe_depth(left: Seq<u8>, right: Seq<u8>, c: int, fuel: nat) -> Option<int>
    decreases fuel,
{
    if left[c] as int == c {
        Some(0)
    } else if fuel == 0 {
        None
    } else {
        match (
            bpe_depth(left, right, left[c] as int, (fuel - 1) as nat),
            bpe_depth(left, right, right[c] as int, (fuel - 1) as nat),
        ) {
            (Some(a), Some(b)) => Some(
                if 1 + a >= b && 1 + a >= 2 {
                    1 + a
                } else if b >= 2 {
                    b
                } else {
                    2
                },
            ),
            _ => None,
        }
    }
}

/// Whether code `c` expands within the decoder's stack.
pub open spec fn bpe_code_ok(left: Seq<u8>, right: Seq<u8>, c: int) -> bool {
    match bpe_depth(left, right, c, BPE_FUEL as nat) {
        Some(d) => d <= BPE_STACK_SIZE,
        None => false,
    }
}

pub open spec fn identity_table() -> Seq<u8> {
    Seq::new(256, |i: int| i as u8)
}

/// The decoder reading `s` at `pos`, in one of four phases: 0 at the start of a block,
/// 1 with the count byte `k` just read, 2 with `k` pair-table items of the current run left,
/// 3 at the block's size. `c` is the next code of the pair table. It holds when every block
/// is complete and every code of its data expands within the stack.
pub open spec fn bpe_ok(
    s: Seq<u8>,
    pos: int,
    phase: int,
    c: int,
    k: int,
    left: Seq<u8>,
    right: Seq<u8>,
) -> bool
    decreases s.len() - pos, 3 - phase,
{
    if pos < 0 || pos > s.len() || phase < 0 || phase > 3 {
        false
    } else if phase == 0 {
        if pos == s.len() {
            true
        } else {
            bpe_ok(s, pos + 1, 1, 0, s[pos] as int, identity_table(), right)
        }
    } else if phase == 1 {
        let c2 = if k > 127 {
            c + k - 127
        } else {
            c
        };
        let k2 = if k > 127 {
            0
        } else {
            k
        };
        if c2 == 256 {
            bpe_ok(s, pos, 3, c2, 0, left, right)
        } else if c2 + k2 + 1 > 256 {
            false
        } else {
            bpe_ok(s, pos, 2, c2, k2 + 1, left, right)
        }
    } else if phase == 2 {
        if k <= 0 {
            if c == 256 {
                bpe_ok(s, pos, 3, c, 0, left, right)
            } else if pos == s.len() {
                false
            } else {
                bpe_ok(s, pos + 1, 1, c, s[pos] as int, left, right)
            }
        } else if pos == s.len() || c < 0 || c >= 256 {
            false
        } else if s[pos] as int == c {
            bpe_ok(s, pos + 1, 2, c + 1, k - 1, left.update(c, s[pos]), right)
        } else if pos + 1 == s.len() {
            false
        } else {
            bpe_ok(
                s,
                pos + 2,
                2,
                c + 1,
                k - 1,
                left.update(c, s[pos]),
                right.update(c, s[pos + 1]),
            )
        }
    } else {
        if pos + 2 > s.len() {
            false
        } else {
            let size = 256 * s[pos] as int + s[pos + 1] as int;
            &&& pos + 2 + size <= s.len()
            &&& forall|j: int|
                pos + 2 <= j < pos + 2 + size ==> bpe_code_ok(left, right, #[trigger] s[j] as int)
            &&& bpe_ok(s, pos + 2 + size, 0, 0, 0, left, right)
        }
    }
}

/// A stream that bpe_rs::bpe::decode reads at its default stack size without panicking.
pub open spec fn bpe_decodable(s: Seq<u8>) -> bool {
    bpe_ok(s, 0, 0, 0, 0, identity_table(), Seq::new(256, |i: int| 0u8))
}


/// No depth: the expansion does not fit within the fuel.
pub const NO_DEPTH: u64 = 0xFFFF_FFFF_FFFF_FFFF;

pub open spec fn depth_entry(x: u64) -> Option<int> {
    if x == NO_DEPTH {
        None
    } else {
        Some(x as int)
    }
}

fn identity_vec() -> (r: Vec<u8>)
    ensures
        r@ == identity_table(),
{
    let mut r: Vec<u8> = Vec::new();
    let mut i: u64 = 0;
    while i < 256
        invariant
            i <= 256,
            r@.len() == i,
            forall|j: int| 0 <= j < i ==> #[trigger] r@[j] == j as u8,
        decreases 256 - i,
    {
        r.push(i as u8);
        i = i + 1;
    }
    assert(r@ =~= identity_table());
    r
}

/// The stack depth of every code, with `NO_DEPTH` where it has none.
fn code_depths(left: &Vec<u8>, right: &Vec<u8>) -> (r: Vec<u64>)
    requires
        left@.len() == 256,
        right@.len() == 256,
    ensures
        r@.len() == 256,
        forall|c: int|
            0 <= c < 256 ==> depth_entry(#[trigger] r@[c]) == bpe_depth(
                left@,
                right@,
                c,
                BPE_FUEL as nat,
            ),
{
    let mut cur: Vec<u64> = Vec::new();
    let mut c: usize = 0;
    while c < 256
        invariant
            left@.len() == 256,
            c <= 256,
            cur@.len() == c,
            forall|j: int|
                0 <= j < c ==> depth_entry(#[trigger] cur@[j]) == bpe_depth(left@, right@, j, 0),
            forall|j: int| 0 <= j < c ==> #[trigger] cur@[j] == NO_DEPTH || cur@[j] <= 2,
        decreases 256 - c,
    {
        if left[c] as usize == c {
            cur.push(0);
        } else {
            cur.push(NO_DEPTH);
        }
        c = c + 1;
    }
    let mut fuel: u64 = 0;
    while fuel < BPE_FUEL
        invariant
            left@.len() == 256,
            right@.len() == 256,
            fuel <= BPE_FUEL,
            cur@.len() == 256,
            forall|j: int|
                0 <= j < 256 ==> depth_entry(#[trigger] cur@[j]) == bpe_depth(
                    left@,
                    right@,
                    j,
                    fuel as nat,
                ),
            forall|j: int| 0 <= j < 256 ==> #[trigger] cur@[j] == NO_DEPTH || cur@[j] <= 2 + fuel,
        decreases BPE_FUEL - fuel,
    {
        let mut next: Vec<u64> = Vec::new();
        let mut c: usize = 0;
        while c < 256
            invariant
                left@.len() == 256,
                right@.len() == 256,
                fuel < BPE_FUEL,
                cur@.len() == 256,
                forall|j: int|
                    0 <= j < 256 ==> depth_entry(#[trigger] cur@[j]) == bpe_depth(
                        left@,
                        right@,
                        j,
                        fuel as nat,
                    ),
                forall|j: int| 0 <= j < 256 ==> #[trigger] cur@[j] == NO_DEPTH || cur@[j] <= 2 + fuel,
                c <= 256,
                next@.len() == c,
                forall|j: int|
                    0 <= j < c ==> depth_entry(#[trigger] next@[j]) == bpe_depth(
                        left@,
                        right@,
                        j,
                        (fuel + 1) as nat,
                    ),
                forall|j: int| 0 <= j < c ==> #[trigger] next@[j] == NO_DEPTH || next@[j] <= 3 + fuel,
            decreases 256 - c,
        {
            let l = left[c];
            if l as usize == c {
                next.push(0);
            } else {
                let a = cur[l as usize];
                let b = cur[right[c] as usize];
                if a == NO_DEPTH || b == NO_DEPTH {
                    next.push(NO_DEPTH);
                } else if 1 + a >= b && 1 + a >= 2 {
                    next.push(1 + a);
                } else if b >= 2 {
                    next.push(b);
                } else {
                    next.push(2);
                }
            }
            c = c + 1;
        }
        cur = next;
        fuel = fuel + 1;
    }
    cur
}

/// Whether bpe_rs::bpe::decode reads `s` at its default stack size without panicking.
pub fn bpe_check(s: &[u8]) -> (r: bool)
    ensures
        r == bpe_decodable(s@),
{
    let len = s.len();
    let mut pos: usize = 0;
    let mut phase: u64 = 0;
    let mut c: u64 = 0;
    let mut k: u64 = 0;
    let mut left: Vec<u8> = identity_vec();
    let mut right: Vec<u8> = Vec::new();
    let mut i: u64 = 0;
    while i < 256
        invariant
            i <= 256,
            right@.len() == i,
            forall|j: int| 0 <= j < i ==> #[trigger] right@[j] == 0u8,
        decreases 256 - i,
    {
        right.push(0);
        i = i + 1;
    }
    assert(right@ =~= Seq::new(256, |i: int| 0u8));
    loop
        invariant
            len == s@.len(),
            pos <= len,
            phase <= 3,
            c <= 256,
            k <= 256,
            left@.len() == 256,
            right@.len() == 256,
            bpe_ok(s@, pos as int, phase as int, c as int, k as int, left@, right@)
                == bpe_decodable(s@),
        decreases len - pos, 3 - phase,
    {
        if phase == 0 {
            if pos == len {
                return true;
            }
            left = identity_vec();
            k = s[pos] as u64;
            c = 0;
            phase = 1;
            pos = pos + 1;
        } else if phase == 1 {
            let c2 = if k > 127 {
                c + k - 127
            } else {
                c
            };
            let k2 = if k > 127 {
                0
            } else {
                k
            };
            if c2 == 256 {
                c = c2;
                k = 0;
                phase = 3;
            } else if c2 + k2 + 1 > 256 {
                return false;
            } else {
                c = c2;
                k = k2 + 1;
                phase = 2;
            }
        } else if phase == 2 {
            if k == 0 {
                if c == 256 {
                    phase = 3;
                } else if pos == len {
                    return false;
                } else {
                    k = s[pos] as u64;
                    pos = pos + 1;
                    phase = 1;
                }
            } else if pos == len || c >= 256 {
                return false;
            } else if s[pos] as u64 == c {
                left.set(c as usize, s[pos]);
                c = c + 1;
                k = k - 1;
                pos = pos + 1;
            } else if pos + 1 == len {
                return false;
            } else {
                left.set(c as usize, s[pos]);
                right.set(c as usize, s[pos + 1]);
                c = c + 1;
                k = k - 1;
                pos = pos + 2;
            }
        } else {
            if len - pos < 2 {
                return false;
            }
            let size: usize = 256 * (s[pos] as usize) + s[pos + 1] as usize;
            if size > len - pos - 2 {
                return false;
            }
            let depths = code_depths(&left, &right);
            let start = pos + 2;
            let mut j: usize = 0;
            while j < size
                invariant
                    len == s@.len(),
                    phase == 3,
                    start == pos + 2,
                    size == 256 * s@[pos as int] as int + s@[pos + 1] as int,
                    left@.len() == 256,
                    right@.len() == 256,
                    bpe_ok(s@, pos as int, phase as int, c as int, k as int, left@, right@)
                        == bpe_decodable(s@),
                    start + size <= len,
                    j <= size,
                    depths@.len() == 256,
                    forall|x: int|
                        0 <= x < 256 ==> depth_entry(#[trigger] depths@[x]) == bpe_depth(
                            left@,
                            right@,
                            x,
                            BPE_FUEL as nat,
                        ),
                    forall|m: int|
                        start <= m < start + j ==> bpe_code_ok(left@, right@, #[trigger] s@[m] as int),
                decreases size - j,
            {
                let d = depths[s[start + j] as usize];
                if d > BPE_STACK_SIZE {
                    assert(!bpe_code_ok(left@, right@, s@[start + j] as int));
                    return false;
                }
                j = j + 1;
            }
            pos = start + size;
            phase = 0;
            c = 0;
            k = 0;
        }
    }
}

} // verus!
