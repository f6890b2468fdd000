//! The settings a slicer states in a container's metadata blocks, one
//! `key=value` line each.

use crate::text;
use vstd::prelude::*;
use vstd::string::*;

verus! {

/// Calls `std::str::from_utf8`, which is `Ok` exactly when the bytes are valid
/// UTF-8.
#[verifier::external_body]
fn is_utf8(bytes: &[u8]) -> (valid: bool)
    ensures
        valid == vstd::utf8::valid_utf8(bytes@),
{
    match std::str::from_utf8(bytes) {
        Ok(_) => true,
        Err(_) => false,
    }
}

/// The value of the first line from `at` on that states `key`, white space
/// around either aside.
pub open spec fn stated_from(ini: Seq<u8>, at: int, key: Seq<u8>) -> Option<Seq<u8>>
    decreases
            if at < ini.len() {
                ini.len() - at
            } else {
                0
            },
{
    if !(0 <= at < ini.len()) {
        None
    } else {
        let end = text::find(ini, 0x0a, at, ini.len() as int);
        let equals = text::find(ini, 0x3d, at, end);
        if equals < end && text::trim(ini.subrange(at, equals)) == key {
            Some(text::trim(ini.subrange(equals + 1, end)))
        } else {
            proof {
                text::lemma_find(ini, 0x0a, at, ini.len() as int);
            }
            stated_from(ini, end + 1, key)
        }
    }
}

/// The value a metadata block states for `key`. One that is not text states
/// nothing.
pub open spec fn stated(ini: Seq<u8>, key: Seq<u8>) -> Option<Seq<u8>> {
    if vstd::utf8::valid_utf8(ini) {
        stated_from(ini, 0, key)
    } else {
        None
    }
}

/// A text without the white space at either end.
fn trimmed(bytes: &[u8]) -> (inner: &[u8])
    ensures
        inner@ == text::trim(bytes@),
{
    let start = text::skip_space(bytes, 0);
    let end = text::drop_space(bytes, start, bytes.len());
    &bytes[start..end]
}

fn same(a: &[u8], b: &[u8]) -> (equal: bool)
    ensures
        equal == (a@ == b@),
{
    if a.len() != b.len() {
        return false;
    }
    let mut i: usize = 0;
    while i < a.len()
        invariant
            i <= a.len() == b.len(),
            forall|j: int| 0 <= j < i ==> a@[j] == b@[j],
        decreases a.len() - i,
    {
        if a[i] != b[i] {
            return false;
        }
        i += 1;
    }
    assert(a@ =~= b@);
    true
}

/// The value of one `key=value` line, exactly as the metadata block states it.
/// A width is only a number once the nozzle it may be a percentage of has been
/// read, which can be a block later.
pub fn setting<'a>(ini: &'a [u8], key: &str) -> (value: Option<&'a [u8]>)
    ensures
        value is Some == stated(ini@, text::bytes(key@)) is Some,
        value is Some ==> value->0@ == stated(ini@, text::bytes(key@))->0,
{
    if !is_utf8(ini) {
        return None;
    }
    let name = key.as_bytes();
    let mut at: usize = 0;
    while at < ini.len()
        invariant
            at <= ini.len(),
            name@ == text::bytes(key@),
            vstd::utf8::valid_utf8(ini@),
            stated(ini@, name@) == stated_from(ini@, at as int, name@),
        decreases ini.len() - at,
    {
        let end = text::position(ini, 0x0a, at, ini.len());
        let equals = text::position(ini, 0x3d, at, end);
        if equals < end {
            let found = trimmed(&ini[at..equals]);
            if same(found, name) {
                return Some(trimmed(&ini[equals + 1..end]));
            }
        }
        if end == ini.len() {
            assert(stated_from(ini@, end + 1, name@) is None);
            return None;
        }
        at = end + 1;
    }
    None
}

} // verus!
