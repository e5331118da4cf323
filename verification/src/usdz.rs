//! Finding the layer inside a USDZ package: a zip archive whose first
//! stored `.usda` or `.usdc` entry is the stage.

use vstd::prelude::*;

verus! {

/// Where an archive entry's name and data lie in the package bytes.
#[derive(Clone, Copy, Debug, PartialEq, Eq, Structural)]
pub struct UsdzEntry {
    pub name_start: usize,
    pub name_end: usize,
    pub data_start: usize,
    pub data_end: usize,
}

/// The little-endian `u16` at `i`.
pub open spec fn le16(b: Seq<u8>, i: int) -> int {
    b[i] + 256 * b[i + 1]
}

/// The little-endian `u32` at `i`.
pub open spec fn le32(b: Seq<u8>, i: int) -> int {
    b[i] + 256 * b[i + 1] + 65536 * b[i + 2] + 16777216 * b[i + 3]
}

/// A local file header signature (`PK\x03\x04`) starts at `i`.
pub open spec fn is_local_header(b: Seq<u8>, i: int) -> bool {
    b[i] == 0x50u8 && b[i + 1] == 0x4bu8 && b[i + 2] == 3u8 && b[i + 3] == 4u8
}

/// ASCII lower case of a byte.
pub open spec fn lower_byte(c: u8) -> u8 {
    if 0x41 <= c <= 0x5a {
        (c + 32) as u8
    } else {
        c
    }
}

/// Index of the last `.` in `name`, or -1.
pub open spec fn last_dot(name: Seq<u8>) -> int
    decreases name.len(),
{
    if name.len() == 0 {
        -1
    } else if name.last() == 0x2eu8 {
        name.len() - 1
    } else {
        last_dot(name.drop_last())
    }
}

/// The name ends in `.usda` or `.usdc`, in any ASCII case (the text after
/// its last dot; with no dot, the whole name).
pub open spec fn is_layer_name(name: Seq<u8>) -> bool {
    let ext = name.skip(last_dot(name) + 1);
    &&& ext.len() == 4
    &&& lower_byte(ext[0]) == 0x75u8
    &&& lower_byte(ext[1]) == 0x73u8
    &&& lower_byte(ext[2]) == 0x64u8
    &&& (lower_byte(ext[3]) == 0x61u8 || lower_byte(ext[3]) == 0x63u8)
}

/// The entry whose header starts at `i`.
pub open spec fn entry_at(b: Seq<u8>, i: int) -> (int, int, int, int) {
    let name_start = i + 30;
    let name_end = name_start + le16(b, i + 26);
    let data_start = name_end + le16(b, i + 28);
    let data_end = data_start + le32(b, i + 18);
    (name_start, name_end, data_start, data_end)
}

/// The first layer entry found scanning from `i`: at each position with a
/// header and 30 bytes after it, an entry whose name fits in the package,
/// names a layer, and whose data fits is the answer; otherwise the scan
/// goes on past its data (or one byte).
pub open spec fn scan_from(b: Seq<u8>, i: int) -> Option<(int, int, int, int)>
    decreases b.len() - i,
{
    if i < 0 || i + 30 >= b.len() {
        None
    } else if is_local_header(b, i) {
        let e = entry_at(b, i);
        if e.1 <= b.len() && is_layer_name(b.subrange(e.0, e.1)) && e.3 <= b.len() {
            Some(e)
        } else {
            let next = if e.3 > i + 1 { e.3 } else { i + 1 };
            if next >= b.len() {
                None
            } else {
                scan_from(b, next)
            }
        }
    } else {
        scan_from(b, i + 1)
    }
}

fn layer_name(b: &Vec<u8>, s: usize, e: usize) -> (r: bool)
    requires
        s <= e <= b@.len(),
    ensures
        r == is_layer_name(b@.subrange(s as int, e as int)),
{
    let ghost name = b@.subrange(s as int, e as int);
    let mut k: usize = e;
    assert(name.take((k - s) as int) =~= name);
    while k > s && b[k - 1] != 0x2e
        invariant
            s <= k <= e,
            e <= b@.len(),
            name == b@.subrange(s as int, e as int),
            last_dot(name) == last_dot(name.take(k - s)),
        decreases k - s,
    {
        assert(name.take(k - s).drop_last() =~= name.take(k - 1 - s));
        k = k - 1;
    }
    proof {
        if k > s {
            assert(name.take(k - s).last() == b@[k - 1]);
            assert(last_dot(name) == k - 1 - s);
        } else {
            assert(name.take(0) =~= seq![]);
            assert(last_dot(name) == -1);
        }
        assert(name.skip(last_dot(name) + 1) =~= b@.subrange(k as int, e as int));
    }
    if e - k != 4 {
        return false;
    }
    let l0 = if 0x41 <= b[k] && b[k] <= 0x5a { b[k] + 32 } else { b[k] };
    let l1 = if 0x41 <= b[k + 1] && b[k + 1] <= 0x5a { b[k + 1] + 32 } else { b[k + 1] };
    let l2 = if 0x41 <= b[k + 2] && b[k + 2] <= 0x5a { b[k + 2] + 32 } else { b[k + 2] };
    let l3 = if 0x41 <= b[k + 3] && b[k + 3] <= 0x5a { b[k + 3] + 32 } else { b[k + 3] };
    l0 == 0x75 && l1 == 0x73 && l2 == 0x64 && (l3 == 0x61 || l3 == 0x63)
}

/// The first `.usda` or `.usdc` entry of a USDZ package (see `scan_from`),
/// or `None`.
pub fn find_layer_entry(bytes: &Vec<u8>) -> (r: Option<UsdzEntry>)
    ensures
        match scan_from(bytes@, 0) {
            Some(e) => r == Some(UsdzEntry {
                name_start: e.0 as usize,
                name_end: e.1 as usize,
                data_start: e.2 as usize,
                data_end: e.3 as usize,
            }),
            None => r is None,
        },
{
    let n = bytes.len();
    let mut i: usize = 0;
    while i < n && n - i > 30
        invariant
            n == bytes@.len(),
            i <= n,
            scan_from(bytes@, 0) == scan_from(bytes@, i as int),
        decreases n - i,
    {
        if bytes[i] == 0x50 && bytes[i + 1] == 0x4b && bytes[i + 2] == 3 && bytes[i + 3] == 4 {
            let name_len: u128 = bytes[i + 26] as u128 + 256 * (bytes[i + 27] as u128);
            let extra_len: u128 = bytes[i + 28] as u128 + 256 * (bytes[i + 29] as u128);
            let comp_size: u128 = bytes[i + 18] as u128 + 256 * (bytes[i + 19] as u128) + 65536 * (
            bytes[i + 20] as u128) + 16777216 * (bytes[i + 21] as u128);
            let name_start: u128 = i as u128 + 30;
            let name_end: u128 = name_start + name_len;
            let data_start: u128 = name_end + extra_len;
            let data_end: u128 = data_start + comp_size;
            let size: u128 = n as u128;
            assert(entry_at(bytes@, i as int) == (
                name_start as int,
                name_end as int,
                data_start as int,
                data_end as int,
            ));
            if name_end <= size && data_end <= size {
                if layer_name(bytes, name_start as usize, name_end as usize) {
                    return Some(
                        UsdzEntry {
                            name_start: name_start as usize,
                            name_end: name_end as usize,
                            data_start: data_start as usize,
                            data_end: data_end as usize,
                        },
                    );
                }
            }
            let next: u128 = if data_end > i as u128 + 1 {
                data_end
            } else {
                i as u128 + 1
            };
            if next >= size {
                proof {
                    assert(scan_from(bytes@, i as int) == None::<(int, int, int, int)>);
                }
                return None;
            }
            i = next as usize;
        } else {
            i = i + 1;
        }
    }
    None
}

/// `c` is the ASCII letter whose lower-case byte is `lower` (either case).
pub open spec fn letter_either_case(c: u8, lower: u8) -> bool {
    c == lower || c + 32 == lower
}

/// The name spells a USD layer file name: it is `usda`/`usdc` itself or
/// ends in `.usda`/`.usdc`, each letter in either ASCII case.
pub open spec fn ends_in_layer_extension(name: Seq<u8>) -> bool {
    let n = name.len() as int;
    &&& n >= 4
    &&& (n == 4 || name[n - 5] == 0x2eu8)
    &&& letter_either_case(name[n - 4], 0x75u8)
    &&& letter_either_case(name[n - 3], 0x73u8)
    &&& letter_either_case(name[n - 2], 0x64u8)
    &&& (letter_either_case(name[n - 1], 0x61u8) || letter_either_case(name[n - 1], 0x63u8))
}

proof fn lemma_last_dot(name: Seq<u8>)
    ensures
        -1 <= last_dot(name) < name.len(),
        last_dot(name) >= 0 ==> name[last_dot(name)] == 0x2eu8,
        forall|k: int| last_dot(name) < k < name.len() ==> name[k] != 0x2eu8,
    decreases name.len(),
{
    if name.len() > 0 && name.last() != 0x2eu8 {
        lemma_last_dot(name.drop_last());
        assert forall|k: int| last_dot(name) < k < name.len() implies name[k] != 0x2eu8 by {
            if k < name.len() - 1 {
                assert(name[k] == name.drop_last()[k]);
            }
        }
    }
}

proof fn lemma_lower_letter(c: u8, lower: u8)
    requires
        0x61 <= lower <= 0x7a,
    ensures
        (lower_byte(c) == lower) <==> letter_either_case(c, lower),
{
}

/// A package entry names its layer exactly when the name is `usda` or
/// `usdc`, or ends in `.usda` or `.usdc`, in any ASCII case: `.usdc`
/// layers are found just as `.usda` ones.
pub proof fn lemma_layer_names(name: Seq<u8>)
    ensures
        is_layer_name(name) <==> ends_in_layer_extension(name),
{
    lemma_last_dot(name);
    let n = name.len() as int;
    let ld = last_dot(name);
    let ext = name.skip(ld + 1);
    lemma_lower_letter(name[n - 4], 0x75u8);
    lemma_lower_letter(name[n - 3], 0x73u8);
    lemma_lower_letter(name[n - 2], 0x64u8);
    lemma_lower_letter(name[n - 1], 0x61u8);
    lemma_lower_letter(name[n - 1], 0x63u8);
    if is_layer_name(name) {
        assert(ld == n - 5);
        assert(ext[0] == name[n - 4] && ext[1] == name[n - 3] && ext[2] == name[n - 2] && ext[3] == name[n - 1]);
    }
    if ends_in_layer_extension(name) {
        assert(name[n - 4] != 0x2eu8 && name[n - 3] != 0x2eu8 && name[n - 2] != 0x2eu8 && name[n - 1] != 0x2eu8);
        if n == 4 {
            if ld >= 0 {
                assert(name[ld] == 0x2eu8);
            }
            assert(ld == -1);
        } else {
            if ld < n - 5 {
                assert(name[n - 5] != 0x2eu8);
            }
            assert(ld == n - 5);
        }
        assert(ext.len() == 4);
        assert(ext[0] == name[n - 4] && ext[1] == name[n - 3] && ext[2] == name[n - 2] && ext[3] == name[n - 1]);
    }
}

/// An entry at `i` with its header, whose name and data fit in the package
/// and whose name ends in `.usda` or `.usdc` (any case), is the layer that a
/// scan from `i` finds.
pub proof fn lemma_scan_takes_layer_entry(b: Seq<u8>, i: int)
    requires
        0 <= i,
        i + 30 < b.len(),
        is_local_header(b, i),
        entry_at(b, i).1 <= b.len(),
        entry_at(b, i).3 <= b.len(),
        ends_in_layer_extension(b.subrange(entry_at(b, i).0, entry_at(b, i).1)),
    ensures
        scan_from(b, i) == Some(entry_at(b, i)),
{
    lemma_layer_names(b.subrange(entry_at(b, i).0, entry_at(b, i).1));
}

} // verus!
