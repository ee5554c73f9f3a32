use vstd::prelude::*;
use vstd::string::StringSliceAdditionalSpecFns;
use vstd::utf8::valid_utf8;

use crate::error::OfError;
use crate::parsing::be_u32_of;

verus! {

/// `s` without its trailing NUL bytes.
pub open spec fn trim_nuls(s: Seq<u8>) -> Seq<u8>
    decreases s.len(),
{
    if s.len() > 0 && s.last() == 0 {
        trim_nuls(s.drop_last())
    } else {
        s
    }
}

/// The bytes of "okay".
pub open spec fn okay_bytes() -> Seq<u8> {
    seq![0x6fu8, 0x6bu8, 0x61u8, 0x79u8]
}

/// The bytes of "ok".
pub open spec fn ok_bytes() -> Seq<u8> {
    seq![0x6fu8, 0x6bu8]
}

/// Availability of a device whose `status` property holds `status`, if it has one.
pub open spec fn availability(status: Option<Seq<u8>>) -> Result<bool, OfError> {
    match status {
        None => Ok(true),
        Some(v) => if !valid_utf8(v) {
            Err(OfError::InvalidText)
        } else {
            Ok(trim_nuls(v) == okay_bytes() || trim_nuls(v) == ok_bytes())
        },
    }
}

/// Whether some string of `compats` is, byte for byte, one of `with`.
pub open spec fn lists_intersect(compats: Seq<&str>, with: Seq<&str>) -> bool {
    exists|i: int, j: int|
        0 <= i < compats.len() && 0 <= j < with.len() && #[trigger] compats[i].spec_bytes()
            == #[trigger] with[j].spec_bytes()
}

/// Relies on `core::str::from_utf8`: it succeeds exactly on valid UTF-8 and
/// then views the same bytes.
#[verifier::external_body]
pub(crate) fn utf8_str(b: &[u8]) -> (r: Option<&str>)
    ensures
        r is Some <==> valid_utf8(b@),
        r is Some ==> r->0.spec_bytes() == b@,
{
    core::str::from_utf8(b).ok()
}

/// The length of `v` without its trailing NUL bytes.
pub fn trimmed_len(v: &[u8]) -> (r: usize)
    ensures
        r <= v@.len(),
        v@.take(r as int) == trim_nuls(v@),
{
    let mut n = v.len();
    assert(v@.take(n as int) =~= v@);
    while n > 0 && v[n - 1] == 0
        invariant
            n <= v@.len(),
            trim_nuls(v@.take(n as int)) == trim_nuls(v@),
        decreases n,
    {
        assert(v@.take(n as int).drop_last() =~= v@.take(n as int - 1));
        n = n - 1;
    }
    assert(trim_nuls(v@.take(n as int)) == v@.take(n as int));
    n
}

/// The text of a string property: its bytes without trailing NULs, when
/// they are valid UTF-8.
pub fn property_text(v: &[u8]) -> (r: Option<&str>)
    ensures
        r is Some <==> valid_utf8(trim_nuls(v@)),
        r is Some ==> r->0.spec_bytes() == trim_nuls(v@),
{
    let n = trimmed_len(v);
    let t = &v[0..n];
    assert(t@ == trim_nuls(v@));
    utf8_str(t)
}

/// Whether two byte strings are equal.
pub fn bytes_eq(a: &[u8], b: &[u8]) -> (r: bool)
    ensures
        r == (a@ == b@),
{
    if a.len() != b.len() {
        return false;
    }
    let mut i: usize = 0;
    while i < a.len()
        invariant
            a@.len() == b@.len(),
            i <= a@.len(),
            forall|k: int| 0 <= k < i ==> a@[k] == b@[k],
        decreases a@.len() - i,
    {
        if a[i] != b[i] {
            return false;
        }
        i = i + 1;
    }
    assert(a@ =~= b@);
    true
}

/// Availability of a device from its `status` property: a device without one
/// is available; one whose status reads "okay" or "ok" (trailing NULs aside)
/// is available; any other text means disabled; bytes that are not UTF-8 are
/// an `InvalidText` error.
pub fn device_status_available(status: Option<&[u8]>) -> (r: Result<bool, OfError>)
    ensures
        r == availability(match status { Some(v) => Some(v@), None => None }),
{
    match status {
        None => Ok(true),
        Some(v) => {
            if utf8_str(v).is_none() {
                return Err(OfError::InvalidText);
            }
            let n = trimmed_len(v);
            let t = &v[0..n];
            assert(t@ == trim_nuls(v@));
            let okay: [u8; 4] = [0x6f, 0x6b, 0x61, 0x79];
            let ok: [u8; 2] = [0x6f, 0x6b];
            let a = bytes_eq(t, okay.as_slice());
            let b = bytes_eq(t, ok.as_slice());
            assert(okay@ =~= okay_bytes());
            assert(ok@ =~= ok_bytes());
            Ok(a || b)
        },
    }
}

/// Whether the compatible list `compats` names one of the identifiers `with`.
pub fn compatible_matches(compats: &[&str], with: &[&str]) -> (r: bool)
    ensures
        r == lists_intersect(compats@, with@),
{
    let mut i: usize = 0;
    while i < compats.len()
        invariant
            i <= compats@.len(),
            forall|x: int, y: int|
                0 <= x < i && 0 <= y < with@.len() ==> #[trigger] compats@[x].spec_bytes()
                    != #[trigger] with@[y].spec_bytes(),
        decreases compats@.len() - i,
    {
        let c = compats[i].as_bytes();
        let mut j: usize = 0;
        while j < with.len()
            invariant
                i < compats@.len(),
                j <= with@.len(),
                c@ == compats@[i as int].spec_bytes(),
                forall|x: int, y: int|
                    0 <= x < i && 0 <= y < with@.len() ==> #[trigger] compats@[x].spec_bytes()
                        != #[trigger] with@[y].spec_bytes(),
                forall|y: int| 0 <= y < j ==> compats@[i as int].spec_bytes() != #[trigger] with@[y].spec_bytes(),
            decreases with@.len() - j,
        {
            if bytes_eq(c, with[j].as_bytes()) {
                return true;
            }
            j = j + 1;
        }
        i = i + 1;
    }
    false
}

} // verus!
