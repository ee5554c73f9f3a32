use vstd::prelude::*;
use vstd::utf8::valid_utf8;

use crate::parsing::{be_u32_at, be_u32_of};
use crate::predicates::utf8_str;

verus! {

/// Whether the header of `d` is one that `fdt::Fdt::new` takes: forty bytes,
/// the magic number, and a total size within the buffer.
pub open spec fn header_ok(d: Seq<u8>) -> bool {
    &&& d.len() >= 40
    &&& be_u32_of(d, 0) == 0xd00dfeed
    &&& be_u32_of(d, 4) <= d.len()
}

/// Whether the structure and strings blocks that the header names lie in `d`.
pub open spec fn blocks_in(d: Seq<u8>) -> bool {
    &&& be_u32_of(d, 8) + be_u32_of(d, 36) <= d.len()
    &&& be_u32_of(d, 12) + be_u32_of(d, 32) <= d.len()
}

/// The structure block.
pub open spec fn struct_block(d: Seq<u8>) -> Seq<u8> {
    d.subrange(be_u32_of(d, 8) as int, be_u32_of(d, 8) + be_u32_of(d, 36))
}

/// The strings block.
pub open spec fn strings_block(d: Seq<u8>) -> Seq<u8> {
    d.subrange(be_u32_of(d, 12) as int, be_u32_of(d, 12) + be_u32_of(d, 32))
}

/// The position of the first NUL byte of `s` at or after `i`.
pub open spec fn first_nul(s: Seq<u8>, i: int) -> Option<int>
    decreases s.len() - i,
{
    if i < 0 || i >= s.len() {
        None
    } else if s[i] == 0 {
        Some(i)
    } else {
        first_nul(s, i + 1)
    }
}

/// Whether `s` holds, from `i`, a NUL-terminated UTF-8 string.
pub open spec fn cstr_ok(s: Seq<u8>, i: int) -> bool {
    0 <= i && first_nul(s, i) is Some && valid_utf8(s.subrange(i, first_nul(s, i)->0))
}

/// `x` rounded up to a multiple of four.
pub open spec fn round4(x: int) -> int {
    (x + 3) / 4 * 4
}

/// Whether the structure block `b`, read from token `pos` with `depth` nodes
/// open, is well formed: one root node, whose properties precede its
/// children, nested at most 63 deep, each name a NUL-terminated UTF-8 string
/// (property names in the strings block `strs`, none starting with `/`, so
/// that no alias can stand for a path), each value within the block, and an
/// end token after the root.
pub open spec fn scan(b: Seq<u8>, strs: Seq<u8>, pos: int, depth: nat, in_props: bool, rooted: bool) -> bool
    decreases b.len() - pos,
{
    if pos < 0 || pos + 4 > b.len() {
        false
    } else {
        let t = be_u32_of(b, pos);
        if t == 1 {
            &&& depth < 63
            &&& !(depth == 0 && rooted)
            &&& cstr_ok(b, pos + 4)
            &&& depth == 0 ==> first_nul(b, pos + 4)->0 == pos + 4
            &&& {
                let next = pos + 4 + round4(first_nul(b, pos + 4)->0 - (pos + 4) + 1);
                pos < next <= b.len() && scan(b, strs, next, depth + 1, true, true)
            }
        } else if t == 3 {
            &&& in_props
            &&& pos + 12 <= b.len()
            &&& cstr_ok(strs, be_u32_of(b, pos + 8) as int)
            &&& strs[be_u32_of(b, pos + 8) as int] != 0x2f
            &&& {
                let next = pos + 12 + round4(be_u32_of(b, pos + 4) as int);
                pos < next <= b.len() && scan(b, strs, next, depth, true, rooted)
            }
        } else if t == 2 {
            depth > 0 && scan(b, strs, pos + 4, (depth - 1) as nat, false, rooted)
        } else if t == 9 {
            depth == 0 && rooted
        } else {
            false
        }
    }
}

/// Whether `d` is a devicetree blob that the tree readers of the `fdt` crate
/// walk without fault: every wrapper over them requires it of the blob it reads.
pub open spec fn blob_ok(d: Seq<u8>) -> bool {
    &&& header_ok(d)
    &&& blocks_in(d)
    &&& scan(struct_block(d), strings_block(d), 0, 0, false, false)
}

/// The position of the first NUL of `s` at or after `i`.
fn find_nul(s: &[u8], i: usize) -> (r: Option<usize>)
    ensures
        match first_nul(s@, i as int) {
            Some(k) => r == Some(k as usize),
            None => r is None,
        },
{
    let mut k = i;
    while k < s.len()
        invariant
            i <= k,
            first_nul(s@, i as int) == first_nul(s@, k as int),
        decreases s@.len() - k,
    {
        if s[k] == 0 {
            return Some(k);
        }
        k = k + 1;
    }
    None
}

/// Whether `s` holds, from `i`, a NUL-terminated UTF-8 string; its NUL if so.
fn check_cstr(s: &[u8], i: usize) -> (r: Option<usize>)
    ensures
        r is Some <==> cstr_ok(s@, i as int),
        r is Some ==> first_nul(s@, i as int) == Some(r->0 as int),
{
    let _n = s.len();
    match find_nul(s, i) {
        None => None,
        Some(k) => {
            proof {
                lemma_first_nul_range(s@, i as int);
            }
            assert(i <= k < s@.len());
            let t = &s[i..k];
            assert(t@ == s@.subrange(i as int, k as int));
            if utf8_str(t).is_some() {
                Some(k)
            } else {
                None
            }
        },
    }
}

proof fn lemma_first_nul_range(s: Seq<u8>, i: int)
    ensures
        first_nul(s, i) is Some ==> i <= first_nul(s, i)->0 < s.len(),
    decreases s.len() - i,
{
    if 0 <= i < s.len() && s[i] != 0 {
        lemma_first_nul_range(s, i + 1);
    }
}

/// Checks the structure block `b` against the strings block `strs`.
fn check_struct(b: &[u8], strs: &[u8]) -> (r: bool)
    ensures
        r == scan(b@, strs@, 0, 0, false, false),
{
    let n = b.len();
    let mut pos: usize = 0;
    let mut depth: usize = 0;
    let mut in_props = false;
    let mut rooted = false;
    loop
        invariant
            depth <= 63,
            n == b@.len(),
            pos <= b@.len(),
            scan(b@, strs@, pos as int, depth as nat, in_props, rooted) == scan(b@, strs@, 0, 0, false, false),
        decreases b@.len() - pos,
    {
        let t = match be_u32_at(b, pos) {
            Ok(t) => t,
            Err(_) => return false,
        };
        if t == 1 {
            if depth >= 63 || (depth == 0 && rooted) {
                return false;
            }
            let k = match check_cstr(b, pos + 4) {
                Some(k) => k,
                None => return false,
            };
            proof {
                lemma_first_nul_range(b@, pos + 4);
            }
            if depth == 0 && k != pos + 4 {
                return false;
            }
            let len = k - (pos + 4) + 1;
            let padded = (len + 3) / 4 * 4;
            if padded > b.len() - (pos + 4) {
                return false;
            }
            pos = pos + 4 + padded;
            depth = depth + 1;
            in_props = true;
            rooted = true;
        } else if t == 3 {
            if !in_props || b.len() - pos < 12 {
                return false;
            }
            let len = match be_u32_at(b, pos + 4) {
                Ok(v) => v,
                Err(_) => return false,
            };
            let name = match be_u32_at(b, pos + 8) {
                Ok(v) => v,
                Err(_) => return false,
            };
            if (name as usize) > strs.len() {
                return false;
            }
            if check_cstr(strs, name as usize).is_none() {
                return false;
            }
            proof {
                lemma_first_nul_range(strs@, name as int);
            }
            if strs[name as usize] == 0x2f {
                return false;
            }
            let padded: u64 = (len as u64 + 3) / 4 * 4;
            if padded > (b.len() - (pos + 12)) as u64 {
                return false;
            }
            pos = pos + 12 + padded as usize;
        } else if t == 2 {
            if depth == 0 {
                return false;
            }
            pos = pos + 4;
            depth = depth - 1;
            in_props = false;
        } else if t == 9 {
            return depth == 0 && rooted;
        } else {
            return false;
        }
    }
}

/// Checks that `d` is a blob the tree readers can walk without fault.
pub fn check_blob(d: &[u8]) -> (r: bool)
    ensures
        r == blob_ok(d@),
{
    if d.len() < 40 {
        return false;
    }
    let magic = be_u32_at(d, 0);
    let total = be_u32_at(d, 4);
    let off_struct = be_u32_at(d, 8);
    let off_strings = be_u32_at(d, 12);
    let size_strings = be_u32_at(d, 32);
    let size_struct = be_u32_at(d, 36);
    match (magic, total, off_struct, off_strings, size_strings, size_struct) {
        (Ok(m), Ok(t), Ok(os), Ok(ostr), Ok(sstr), Ok(ss)) => {
            if m != 0xd00dfeed || t as usize > d.len() {
                return false;
            }
            if os as u64 + ss as u64 > d.len() as u64 || ostr as u64 + sstr as u64 > d.len() as u64 {
                return false;
            }
            let b = &d[os as usize..(os as usize + ss as usize)];
            let s = &d[ostr as usize..(ostr as usize + sstr as usize)];
            check_struct(b, s)
        },
        _ => false,
    }
}

} // verus!
