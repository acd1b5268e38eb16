//! Locating the JPEG previews embedded in TIFF-family containers.
//!
//! ARW, CR2, NEF and DNG are all TIFF: a header, then a chain of image file
//! directories that index everything inside. Sony bodies write a sizeable
//! JPEG preview alongside the sensor data, so a thumbnail, a perceptual hash
//! and a similarity check can all be had by seeking to that preview and
//! reading a couple of megabytes — instead of decoding a 25 MB raw frame.
use vstd::prelude::*;
use crate::jpeg::{dimensions, end_marker_from, find_eoi, jpeg_size};

verus! {

pub const TAG_IMAGE_WIDTH: u16 = 0x0100;
pub const TAG_IMAGE_LENGTH: u16 = 0x0101;
pub const TAG_COMPRESSION: u16 = 0x0103;
pub const TAG_STRIP_OFFSETS: u16 = 0x0111;
pub const TAG_STRIP_BYTE_COUNTS: u16 = 0x0117;
pub const TAG_SUB_IFDS: u16 = 0x014A;
pub const TAG_JPEG_OFFSET: u16 = 0x0201;
pub const TAG_JPEG_LENGTH: u16 = 0x0202;
pub const TAG_EXIF_IFD: u16 = 0x8769;

/// Bounded so a corrupt or hostile file cannot make us walk forever.
pub const MAX_IFDS: usize = 64;

#[derive(Debug, Clone, Copy, PartialEq, Eq, Structural)]
pub struct Embedded {
    pub offset: usize,
    pub len: usize,
    pub width: u32,
    pub height: u32,
}

impl Embedded {
    pub open spec fn pixel_count(&self) -> int {
        self.width * self.height
    }

    pub fn pixels(&self) -> (r: u64)
        ensures
            r == self.pixel_count(),
    {
        proof {
            vstd::arithmetic::mul::lemma_mul_upper_bound(
                self.width as int,
                u32::MAX as int,
                self.height as int,
                u32::MAX as int,
            );
        }
        self.width as u64 * self.height as u64
    }
}

// ---------------------------------------------------------------------------
// Reading numbers in the file's byte order.

/// The 16-bit number at `pos`, in the given byte order.
pub open spec fn read16(d: Seq<u8>, be: bool, pos: int) -> Option<u16> {
    if 0 <= pos && pos + 2 <= d.len() {
        Some(
            if be {
                (d[pos] * 256 + d[pos + 1]) as u16
            } else {
                (d[pos] + d[pos + 1] * 256) as u16
            },
        )
    } else {
        None
    }
}

/// The 32-bit number at `pos`, in the given byte order.
pub open spec fn read32(d: Seq<u8>, be: bool, pos: int) -> Option<u32> {
    if 0 <= pos && pos + 4 <= d.len() {
        Some(
            if be {
                (d[pos] * 0x1000000 + d[pos + 1] * 0x10000 + d[pos + 2] * 0x100 + d[pos
                    + 3]) as u32
            } else {
                (d[pos] + d[pos + 1] * 0x100 + d[pos + 2] * 0x10000 + d[pos + 3]
                    * 0x1000000) as u32
            },
        )
    } else {
        None
    }
}

pub struct TiffReader<'a> {
    pub data: &'a [u8],
    pub big_endian: bool,
}

impl<'a> TiffReader<'a> {
    pub fn u16(&self, at: usize) -> (r: Option<u16>)
        ensures
            r == read16(self.data@, self.big_endian, at as int),
    {
        if at > self.data.len() || self.data.len() - at < 2 {
            return None;
        }
        let b0 = self.data[at] as u16;
        let b1 = self.data[at + 1] as u16;
        Some(
            if self.big_endian {
                b0 * 256 + b1
            } else {
                b0 + b1 * 256
            },
        )
    }

    pub fn u32(&self, at: usize) -> (r: Option<u32>)
        ensures
            r == read32(self.data@, self.big_endian, at as int),
    {
        if at > self.data.len() || self.data.len() - at < 4 {
            return None;
        }
        let b0 = self.data[at] as u32;
        let b1 = self.data[at + 1] as u32;
        let b2 = self.data[at + 2] as u32;
        let b3 = self.data[at + 3] as u32;
        Some(
            if self.big_endian {
                b0 * 0x1000000 + b1 * 0x10000 + b2 * 0x100 + b3
            } else {
                b0 + b1 * 0x100 + b2 * 0x10000 + b3 * 0x1000000
            },
        )
    }
}

// ---------------------------------------------------------------------------
// The values of one directory entry.

/// Bytes per value of a TIFF field type, or 0 for the types not read here.
pub open spec fn unit_of(kind: u16) -> int {
    if kind == 1 || kind == 2 || kind == 6 || kind == 7 {
        1
    } else if kind == 3 || kind == 8 {
        2
    } else if kind == 4 || kind == 9 || kind == 13 {
        4
    } else {
        0
    }
}

pub open spec fn read_unit(d: Seq<u8>, be: bool, pos: int, unit: int) -> Option<u32> {
    if unit == 1 {
        if 0 <= pos < d.len() {
            Some(d[pos] as u32)
        } else {
            None
        }
    } else if unit == 2 {
        match read16(d, be, pos) {
            Some(v) => Some(v as u32),
            None => None,
        }
    } else {
        read32(d, be, pos)
    }
}

/// Where an entry's values live: inline when they fit in four bytes,
/// otherwise at the offset the entry records.
pub open spec fn values_base(d: Seq<u8>, be: bool, entry: int, count: u32, unit: int) -> Option<
    int,
> {
    if count * unit <= 4 {
        Some(entry + 8)
    } else {
        match read32(d, be, entry + 8) {
            Some(b) => Some(b as int),
            None => None,
        }
    }
}

/// The values of the 12-byte directory entry at `entry`, normalised to u32.
/// Only the short forms TIFF uses for offsets and sizes are read; more than
/// 4096 values, or any value outside the data, reads as nothing.
pub open spec fn entry_values(d: Seq<u8>, be: bool, entry: int) -> Option<Seq<u32>> {
    match (read16(d, be, entry + 2), read32(d, be, entry + 4)) {
        (Some(kind), Some(count)) => {
            let unit = unit_of(kind);
            if unit == 0 {
                None
            } else {
                match values_base(d, be, entry, count, unit) {
                    None => None,
                    Some(base) => if count > 4096 {
                        None
                    } else if forall|i: int|
                        0 <= i < count ==> #[trigger] read_unit(d, be, base + i * unit, unit) is Some {
                        Some(Seq::new(count as nat, |i: int| read_unit(d, be, base + i * unit, unit)->0))
                    } else {
                        None
                    },
                }
            }
        },
        _ => None,
    }
}

pub open spec fn entry_first(d: Seq<u8>, be: bool, entry: int) -> Option<u32> {
    match entry_values(d, be, entry) {
        Some(v) => if v.len() > 0 {
            Some(v[0])
        } else {
            None
        },
        None => None,
    }
}

pub open spec fn or_empty(v: Option<Seq<u32>>) -> Seq<u32> {
    match v {
        Some(s) => s,
        None => Seq::empty(),
    }
}

/// Values of a tag, normalised to u32.
fn values(r: &TiffReader, entry: usize) -> (out: Option<Vec<u32>>)
    requires
        entry + 12 <= r.data@.len(),
    ensures
        match out {
            Some(v) => entry_values(r.data@, r.big_endian, entry as int) == Some(v@),
            None => entry_values(r.data@, r.big_endian, entry as int) is None,
        },
{
    let ghost d = r.data@;
    let ghost be = r.big_endian;
    let n = r.data.len();
    let kind = match r.u16(entry + 2) {
        Some(k) => k,
        None => return None,
    };
    let count32 = match r.u32(entry + 4) {
        Some(c) => c,
        None => return None,
    };
    let count = count32 as usize;
    let unit: usize = if kind == 1 || kind == 2 || kind == 6 || kind == 7 {
        1
    } else if kind == 3 || kind == 8 {
        2
    } else if kind == 4 || kind == 9 || kind == 13 {
        4
    } else {
        return None;
    };
    assert(unit as int == unit_of(kind));
    let total = match count.checked_mul(unit) {
        Some(t) => t,
        None => {
            proof {
                assert(count32 > 4096) by (nonlinear_arith)
                    requires count32 * unit > usize::MAX, unit <= 4, usize::MAX >= u32::MAX;
            }
            return None;
        },
    };
    let base = if total <= 4 {
        entry + 8
    } else {
        match r.u32(entry + 8) {
            Some(b) => b as usize,
            None => return None,
        }
    };
    assert(values_base(d, be, entry as int, count32, unit as int) == Some(base as int));
    // A preview index never has thousands of entries; refuse absurd counts.
    if count > 4096 {
        return None;
    }
    let mut out: Vec<u32> = Vec::new();
    let mut i: usize = 0;
    while i < count
        invariant
            d == r.data@,
            be == r.big_endian,
            n == d.len(),
            count == count32,
            entry_values(d, be, entry as int) == (if forall|k: int|
                0 <= k < count ==> #[trigger] read_unit(d, be, base + k * unit, unit as int) is Some {
                Some(Seq::new(count as nat, |k: int| read_unit(d, be, base + k * unit, unit as int)->0))
            } else {
                None
            }),
            count <= 4096,
            1 <= unit <= 4,
            i <= count,
            out@.len() == i,
            forall|k: int|
                0 <= k < i ==> #[trigger] read_unit(d, be, base + k * unit, unit as int) == Some(
                    out@[k],
                ),
        decreases count - i,
    {
        assert(i * unit <= 16384) by (nonlinear_arith)
            requires
                i <= 4096,
                unit <= 4,
        ;
        let step = i * unit;
        let at = match base.checked_add(step) {
            Some(a) => a,
            None => {
                assert(read_unit(d, be, base + i * unit, unit as int) is None);
                return None;
            },
        };
        let v = if unit == 1 {
            if at < n {
                r.data[at] as u32
            } else {
                assert(at == base + i * unit);
                assert(read_unit(d, be, base + i * unit, unit as int) is None);
                return None;
            }
        } else if unit == 2 {
            match r.u16(at) {
                Some(x) => x as u32,
                None => {
                    assert(read_unit(d, be, base + i * unit, unit as int) is None);
                    return None;
                },
            }
        } else {
            match r.u32(at) {
                Some(x) => x,
                None => {
                    assert(read_unit(d, be, base + i * unit, unit as int) is None);
                    return None;
                },
            }
        };
        out.push(v);
        i = i + 1;
    }
    assert(out@ =~= Seq::new(
        count as nat,
        |k: int| read_unit(d, be, base + k * unit, unit as int)->0,
    ));
    Some(out)
}

fn first(r: &TiffReader, entry: usize) -> (out: Option<u32>)
    requires
        entry + 12 <= r.data@.len(),
    ensures
        out == entry_first(r.data@, r.big_endian, entry as int),
{
    match values(r, entry) {
        Some(v) => if v.len() > 0 {
            Some(v[0])
        } else {
            None
        },
        None => None,
    }
}


// ---------------------------------------------------------------------------
// Walking the directories.

/// What one directory says about where its JPEGs are. For each tag the last
/// entry carrying it wins; sub-directory offsets accumulate.
pub struct Tags {
    pub jpeg_offset: Option<u32>,
    pub jpeg_length: Option<u32>,
    pub compression: Option<u32>,
    pub strips: Seq<u32>,
    pub counts: Seq<u32>,
    pub subs: Seq<u32>,
}

/// Offset of the `i`-th 12-byte entry of the directory at `at`.
pub open spec fn dir_entry(at: int, i: int) -> int {
    at + 2 + 12 * i
}

pub open spec fn no_tags() -> Tags {
    Tags {
        jpeg_offset: None,
        jpeg_length: None,
        compression: None,
        strips: Seq::empty(),
        counts: Seq::empty(),
        subs: Seq::empty(),
    }
}

pub open spec fn read_entry(t: Tags, d: Seq<u8>, be: bool, e: int) -> Tags {
    let tag = read16(d, be, e)->0;
    if tag == TAG_JPEG_OFFSET {
        Tags { jpeg_offset: entry_first(d, be, e), ..t }
    } else if tag == TAG_JPEG_LENGTH {
        Tags { jpeg_length: entry_first(d, be, e), ..t }
    } else if tag == TAG_COMPRESSION {
        Tags { compression: entry_first(d, be, e), ..t }
    } else if tag == TAG_STRIP_OFFSETS {
        Tags { strips: or_empty(entry_values(d, be, e)), ..t }
    } else if tag == TAG_STRIP_BYTE_COUNTS {
        Tags { counts: or_empty(entry_values(d, be, e)), ..t }
    } else if tag == TAG_SUB_IFDS || tag == TAG_EXIF_IFD {
        Tags { subs: t.subs + or_empty(entry_values(d, be, e)), ..t }
    } else {
        t
    }
}

/// The tags of the first `k` entries of the directory at `at`.
pub open spec fn tags_upto(d: Seq<u8>, be: bool, at: int, k: int) -> Tags
    decreases k,
{
    if k <= 0 {
        no_tags()
    } else {
        read_entry(tags_upto(d, be, at, k - 1), d, be, dir_entry(at, k - 1))
    }
}

/// The state of a walk: directories already visited, how many more may be,
/// and the (offset, length) candidates found so far, in the order found.
pub struct Walk {
    pub seen: Seq<u32>,
    pub budget: nat,
    pub found: Seq<(u32, u32)>,
}

/// The candidates one directory itself names: the JPEG interchange pair,
/// then a single-strip image in JPEG compression (6 old style, 7 new).
pub open spec fn own_candidates(t: Tags, found: Seq<(u32, u32)>) -> Seq<(u32, u32)> {
    let f1 = match (t.jpeg_offset, t.jpeg_length) {
        (Some(o), Some(l)) => found.push((o, l)),
        _ => found,
    };
    if (t.compression == Some(6u32) || t.compression == Some(7u32)) && t.strips.len() == 1
        && t.counts.len() == 1 {
        f1.push((t.strips[0], t.counts[0]))
    } else {
        f1
    }
}

/// Visit the directory at `at`: its own candidates, then its sub-directories
/// in order, then the next directory in its chain. A directory already seen,
/// one past the budget, an implausible entry count, or entries running off
/// the end of the data end that branch of the walk.
pub open spec fn walk(d: Seq<u8>, be: bool, at: u32, st: Walk, fuel: nat) -> Walk
    decreases fuel, 0int, 0int,
{
    if fuel == 0 || st.budget == 0 || st.seen.contains(at) {
        st
    } else {
        let st1 = Walk { seen: st.seen.push(at), budget: (st.budget - 1) as nat, found: st.found };
        match read16(d, be, at as int) {
            None => st1,
            Some(count) => if count > 512 || dir_entry(at as int, count as int) > d.len() {
                st1
            } else {
                let t = tags_upto(d, be, at as int, count as int);
                let st2 = Walk { found: own_candidates(t, st1.found), ..st1 };
                let st3 = walk_list(d, be, t.subs, 0, st2, (fuel - 1) as nat);
                match read32(d, be, dir_entry(at as int, count as int)) {
                    Some(next) => if next != 0 {
                        walk(d, be, next, st3, (fuel - 1) as nat)
                    } else {
                        st3
                    },
                    None => st3,
                }
            },
        }
    }
}

pub open spec fn walk_list(d: Seq<u8>, be: bool, subs: Seq<u32>, j: int, st: Walk, fuel: nat) -> Walk
    decreases fuel, 1int, subs.len() - j,
{
    if j < 0 || j >= subs.len() {
        st
    } else {
        walk_list(d, be, subs, j + 1, walk(d, be, subs[j], st, fuel), fuel)
    }
}

fn contains_u32(v: &Vec<u32>, x: u32) -> (r: bool)
    ensures
        r == v@.contains(x),
{
    let mut i: usize = 0;
    while i < v.len()
        invariant
            i <= v@.len(),
            forall|k: int| 0 <= k < i ==> v@[k] != x,
        decreases v.len() - i,
    {
        if v[i] == x {
            return true;
        }
        i = i + 1;
    }
    false
}

fn scan_ifd(
    r: &TiffReader,
    at: u32,
    found: &mut Vec<(u32, u32)>,
    seen: &mut Vec<u32>,
    budget: &mut usize,
    Ghost(fuel): Ghost<nat>,
)
    requires
        *old(budget) <= fuel,
    ensures
        walk(
            r.data@,
            r.big_endian,
            at,
            Walk { seen: old(seen)@, budget: *old(budget) as nat, found: old(found)@ },
            fuel,
        ) == (Walk { seen: final(seen)@, budget: *final(budget) as nat, found: final(found)@ }),
        *final(budget) <= *old(budget),
    decreases fuel,
{
    let ghost d = r.data@;
    let ghost be = r.big_endian;
    let n = r.data.len();
    if *budget == 0 || contains_u32(seen, at) {
        return;
    }
    seen.push(at);
    *budget = *budget - 1;
    let ghost st1 = Walk { seen: seen@, budget: *budget as nat, found: found@ };
    let at_u = at as usize;
    let count = match r.u16(at_u) {
        Some(c) => c as usize,
        None => return,
    };
    if count > 512 {
        return;  // not a plausible directory
    }
    let mut jpeg_offset: Option<u32> = None;
    let mut jpeg_length: Option<u32> = None;
    let mut compression: Option<u32> = None;
    let mut strips: Vec<u32> = Vec::new();
    let mut counts: Vec<u32> = Vec::new();
    let mut subs: Vec<u32> = Vec::new();
    let mut i: usize = 0;
    while i < count
        invariant
            d == r.data@,
            be == r.big_endian,
            n == d.len(),
            at_u == at as usize,
            count <= 512,
            i <= count,
            read16(d, be, at as int) == Some(count as u16),
            fuel > 0,
            *old(budget) > 0,
            !old(seen)@.contains(at),
            *old(budget) <= fuel,
            st1 == (Walk {
                seen: old(seen)@.push(at),
                budget: (*old(budget) - 1) as nat,
                found: old(found)@,
            }),
            seen@ == st1.seen,
            *budget as nat == st1.budget,
            found@ == st1.found,
            dir_entry(at as int, i as int) <= d.len(),
            tags_upto(d, be, at as int, i as int) == (Tags {
                jpeg_offset: jpeg_offset,
                jpeg_length: jpeg_length,
                compression: compression,
                strips: strips@,
                counts: counts@,
                subs: subs@,
            }),
        decreases count - i,
    {
        let entry = at_u + 2 + i * 12;
        if entry > n || n - entry < 12 {
            // entries run off the end of the data
            assert(dir_entry(at as int, count as int) > d.len());
            return;
        }
        let tag = match r.u16(entry) {
            Some(t) => t,
            None => return,
        };
        if tag == TAG_JPEG_OFFSET {
            jpeg_offset = first(r, entry);
        } else if tag == TAG_JPEG_LENGTH {
            jpeg_length = first(r, entry);
        } else if tag == TAG_COMPRESSION {
            compression = first(r, entry);
        } else if tag == TAG_STRIP_OFFSETS {
            strips = match values(r, entry) {
                Some(v) => v,
                None => Vec::new(),
            };
        } else if tag == TAG_STRIP_BYTE_COUNTS {
            counts = match values(r, entry) {
                Some(v) => v,
                None => Vec::new(),
            };
        } else if tag == TAG_SUB_IFDS || tag == TAG_EXIF_IFD {
            match values(r, entry) {
                Some(v) => {
                    let mut v = v;
                    subs.append(&mut v);
                },
                None => {},
            }
        }
        i = i + 1;
    }
    let ghost t = tags_upto(d, be, at as int, count as int);
    if let (Some(o), Some(l)) = (jpeg_offset, jpeg_length) {
        found.push((o, l));
    }
    if (compression == Some(6u32) || compression == Some(7u32)) && strips.len() == 1 && counts.len()
        == 1 {
        found.push((strips[0], counts[0]));
    }
    let ghost st2 = Walk { seen: seen@, budget: *budget as nat, found: found@ };
    assert(st2 == Walk { found: own_candidates(t, st1.found), ..st1 });
    let mut j: usize = 0;
    while j < subs.len()
        invariant
            d == r.data@,
            be == r.big_endian,
            fuel >= 1,
            *budget <= fuel - 1,
            *budget <= st1.budget,
            j <= subs@.len(),
            walk_list(d, be, subs@, 0, st2, (fuel - 1) as nat) == walk_list(
                d,
                be,
                subs@,
                j as int,
                Walk { seen: seen@, budget: *budget as nat, found: found@ },
                (fuel - 1) as nat,
            ),
        decreases subs.len() - j,
    {
        scan_ifd(r, subs[j], found, seen, budget, Ghost((fuel - 1) as nat));
        j = j + 1;
    }
    // Follow the chain to the next directory.
    let next_at = at_u + 2 + count * 12;
    if let Some(next) = r.u32(next_at) {
        if next != 0 {
            scan_ifd(r, next, found, seen, budget, Ghost((fuel - 1) as nat));
        }
    }
}


// ---------------------------------------------------------------------------
// Accepting candidates.

/// Bytes that really are a JPEG: they start with SOI and a marker, end at
/// the first end marker (or where they run out), and carry a frame size.
pub open spec fn preview_in(b: Seq<u8>) -> Option<Embedded> {
    if !(b.len() >= 3 && b[0] == 0xFF && b[1] == 0xD8 && b[2] == 0xFF) {
        None
    } else {
        let len = match end_marker_from(b, 2) {
            Some(k) => k,
            None => b.len() as int,
        };
        match jpeg_size(b.take(len)) {
            Some((w, h)) => Some(Embedded { offset: 0, len: len as usize, width: w, height: h }),
            None => None,
        }
    }
}

/// The candidate `(offset, len)` of `d`, if it is a JPEG. The recorded length
/// is only an upper bound: the data may end sooner, and the end marker is
/// trusted over the length when they disagree.
pub open spec fn accepted(d: Seq<u8>, offset: int, len: int) -> Option<Embedded> {
    if offset + len > usize::MAX {
        None
    } else {
        let end = if offset + len <= d.len() {
            offset + len
        } else {
            d.len() as int
        };
        if offset > end {
            None
        } else {
            match preview_in(d.subrange(offset, end)) {
                Some(e) => Some(Embedded { offset: offset as usize, ..e }),
                None => None,
            }
        }
    }
}

/// Validate bytes that were read from a candidate range.
pub fn accept_preview(bytes: &[u8]) -> (r: Option<Embedded>)
    ensures
        r == preview_in(bytes@),
{
    let n = bytes.len();
    if n < 3 || bytes[0] != 0xFF || bytes[1] != 0xD8 || bytes[2] != 0xFF {
        return None;
    }
    let len = match find_eoi(bytes, 2) {
        Some(k) => k,
        None => n,
    };
    proof {
        if let Some(k) = end_marker_from(bytes@, 2) {
            lemma_end_marker_bounds(bytes@, 2);
        }
    }
    match dimensions(&bytes[0..len]) {
        Some((width, height)) => Some(Embedded { offset: 0, len, width, height }),
        None => None,
    }
}

pub proof fn lemma_end_marker_bounds(d: Seq<u8>, i: int)
    ensures
        end_marker_from(d, i) matches Some(k) ==> i + 2 <= k <= d.len(),
    decreases d.len() - i,
{
    if 0 <= i && i + 1 < d.len() && !(d[i] == 0xFF && d[i + 1] == 0xD9) {
        lemma_end_marker_bounds(d, i + 1);
    }
}

/// A candidate is only accepted if the bytes really are a JPEG, so a stale or
/// misinterpreted offset yields nothing rather than garbage.
fn accept(data: &[u8], offset: usize, len: usize, out: &mut Vec<Embedded>)
    ensures
        final(out)@ == (match accepted(data@, offset as int, len as int) {
            Some(e) => old(out)@.push(e),
            None => old(out)@,
        }),
{
    let end = match offset.checked_add(len) {
        Some(e) => e,
        None => return,
    };
    let n = data.len();
    let end = if end <= n {
        end
    } else {
        n
    };
    if offset > end {
        return;
    }
    let slice = &data[offset..end];
    if let Some(e) = accept_preview(slice) {
        out.push(Embedded { offset, ..e });
    }
}

/// The candidates the whole container names, in the order the walk finds
/// them: nothing unless the data starts with a classic TIFF header.
pub open spec fn candidates(d: Seq<u8>) -> Seq<(u32, u32)> {
    if d.len() < 8 {
        Seq::empty()
    } else {
        let be_opt = if d[0] == 0x49 && d[1] == 0x49 {
            Some(false)
        } else if d[0] == 0x4D && d[1] == 0x4D {
            Some(true)
        } else {
            None
        };
        match be_opt {
            None => Seq::empty(),
            Some(be) => if read16(d, be, 2) != Some(42u16) {
                // 43 is BigTIFF, whose 8-byte offsets need a different reader.
                Seq::empty()
            } else {
                match read32(d, be, 4) {
                    None => Seq::empty(),
                    Some(ifd0) => walk(
                        d,
                        be,
                        ifd0,
                        Walk { seen: Seq::empty(), budget: MAX_IFDS as nat, found: Seq::empty() },
                        MAX_IFDS as nat,
                    ).found,
                }
            },
        }
    }
}

fn walk_candidates(data: &[u8]) -> (r: Vec<(u32, u32)>)
    ensures
        r@ == candidates(data@),
{
    if data.len() < 8 {
        return Vec::new();
    }
    let big_endian = if data[0] == 0x49 && data[1] == 0x49 {
        false
    } else if data[0] == 0x4D && data[1] == 0x4D {
        true
    } else {
        return Vec::new();
    };
    let r = TiffReader { data, big_endian };
    if r.u16(2) != Some(42u16) {
        return Vec::new();
    }
    let ifd0 = match r.u32(4) {
        Some(x) => x,
        None => return Vec::new(),
    };
    let mut found: Vec<(u32, u32)> = Vec::new();
    let mut seen: Vec<u32> = Vec::new();
    let mut budget: usize = MAX_IFDS;
    scan_ifd(&r, ifd0, &mut found, &mut seen, &mut budget, Ghost(MAX_IFDS as nat));
    found
}

/// Every accepted candidate, in walk order.
pub open spec fn accept_all(d: Seq<u8>, c: Seq<(u32, u32)>) -> Seq<Embedded>
    decreases c.len(),
{
    if c.len() == 0 {
        Seq::empty()
    } else {
        let prev = accept_all(d, c.drop_last());
        match accepted(d, c.last().0 as int, c.last().1 as int) {
            Some(e) => prev.push(e),
            None => prev,
        }
    }
}

pub open spec fn has_offset(r: Seq<Embedded>, off: usize) -> bool {
    exists|i: int| 0 <= i < r.len() && r[i].offset == off
}

/// `e` is in `raw`, and nothing before it there has its offset.
pub open spec fn first_of_its_offset(raw: Seq<Embedded>, e: Embedded) -> bool {
    exists|k: int|
        0 <= k < raw.len() && raw[k] == e && forall|k2: int|
            0 <= k2 < k ==> (#[trigger] raw[k2]).offset != e.offset
}

/// `r` lists, in increasing order of offset, one preview for every offset
/// found in `raw`: the first one found there.
pub open spec fn first_per_offset(r: Seq<Embedded>, raw: Seq<Embedded>) -> bool {
    &&& forall|i: int, j: int| 0 <= i < j < r.len() ==> (#[trigger] r[i]).offset < (#[trigger] r[j]).offset
    &&& forall|k: int| 0 <= k < raw.len() ==> has_offset(r, (#[trigger] raw[k]).offset)
    &&& forall|i: int| 0 <= i < r.len() ==> first_of_its_offset(raw, #[trigger] r[i])
}


fn accept_candidates(data: &[u8], cands: &Vec<(u32, u32)>) -> (r: Vec<Embedded>)
    ensures
        r@ == accept_all(data@, cands@),
{
    let mut out: Vec<Embedded> = Vec::new();
    let mut i: usize = 0;
    while i < cands.len()
        invariant
            i <= cands@.len(),
            out@ == accept_all(data@, cands@.take(i as int)),
        decreases cands.len() - i,
    {
        let (o, l) = cands[i];
        assert(cands@.take(i + 1).drop_last() =~= cands@.take(i as int));
        accept(data, o as usize, l as usize, &mut out);
        i = i + 1;
    }
    assert(cands@.take(cands@.len() as int) =~= cands@);
    out
}

/// Sorted by offset, keeping the first preview found at each offset.
fn first_per_offset_of(raw: &Vec<Embedded>) -> (r: Vec<Embedded>)
    ensures
        first_per_offset(r@, raw@),
{
    let mut r: Vec<Embedded> = Vec::new();
    let mut k: usize = 0;
    while k < raw.len()
        invariant
            k <= raw@.len(),
            first_per_offset(r@, raw@.take(k as int)),
        decreases raw.len() - k,
    {
        let e = raw[k];
        let ghost before = raw@.take(k as int);
        let ghost after = raw@.take(k + 1);
        assert(after == before.push(e));
        // The first position whose offset is not below `e`'s.
        let mut p: usize = 0;
        while p < r.len() && r[p].offset < e.offset
            invariant
                p <= r@.len(),
                forall|q: int| 0 <= q < p ==> (#[trigger] r@[q]).offset < e.offset,
            decreases r.len() - p,
        {
            p = p + 1;
        }
        if p < r.len() && r[p].offset == e.offset {
            // Already represented by an earlier find at the same offset.
            assert forall|kk: int| 0 <= kk < after.len() implies has_offset(r@, (#[trigger] after[kk]).offset) by {
                if kk < before.len() {
                    assert(after[kk] == before[kk]);
                } else {
                    assert(r@[p as int].offset == e.offset);
                }
            }
            assert forall|i: int| 0 <= i < r@.len() implies first_of_its_offset(after, #[trigger] r@[i]) by {
                assert(first_of_its_offset(before, r@[i]));
                let kw = choose|kw: int|
                    0 <= kw < before.len() && before[kw] == r@[i] && forall|k2: int|
                        0 <= k2 < kw ==> (#[trigger] before[k2]).offset != r@[i].offset;
                assert(after[kw] == before[kw]);
                assert forall|k2: int| 0 <= k2 < kw implies (#[trigger] after[k2]).offset != r@[i].offset by {
                    assert(after[k2] == before[k2]);
                }
            }
        } else {
            // `e`'s offset is new: nothing before it had it.
            assert forall|k2: int| 0 <= k2 < before.len() implies (#[trigger] before[k2]).offset != e.offset by {
                assert(has_offset(r@, before[k2].offset));
                let i = choose|i: int| 0 <= i < r@.len() && r@[i].offset == before[k2].offset;
                if i < p {
                    assert(r@[i].offset < e.offset);
                } else if i == p {
                } else {
                    assert(r@[p as int].offset < r@[i].offset);
                }
            }
            let ghost old_r = r@;
            r.insert(p, e);
            assert(r@ == old_r.insert(p as int, e));
            assert forall|i: int, j: int| 0 <= i < j < r@.len() implies (#[trigger] r@[i]).offset < (#[trigger] r@[j]).offset by {
                if j < p {
                    assert(r@[i] == old_r[i] && r@[j] == old_r[j]);
                } else if j == p {
                    assert(r@[i] == old_r[i]);
                } else if i < p {
                    assert(r@[i] == old_r[i] && r@[j] == old_r[j - 1]);
                    assert(old_r[p as int].offset > e.offset || old_r[p as int].offset >= e.offset);
                    if j - 1 > p {
                        assert(old_r[p as int].offset < old_r[j - 1].offset);
                    }
                } else if i == p {
                    assert(r@[j] == old_r[j - 1]);
                    if j - 1 > p {
                        assert(old_r[p as int].offset < old_r[j - 1].offset);
                    }
                } else {
                    assert(r@[i] == old_r[i - 1] && r@[j] == old_r[j - 1]);
                }
            }
            assert forall|kk: int| 0 <= kk < after.len() implies has_offset(r@, (#[trigger] after[kk]).offset) by {
                if kk < before.len() {
                    assert(after[kk] == before[kk]);
                    assert(has_offset(old_r, before[kk].offset));
                    let i = choose|i: int| 0 <= i < old_r.len() && old_r[i].offset == before[kk].offset;
                    if i < p {
                        assert(r@[i] == old_r[i]);
                    } else {
                        assert(r@[i + 1] == old_r[i]);
                    }
                } else {
                    assert(r@[p as int] == e);
                }
            }
            assert forall|i: int| 0 <= i < r@.len() implies first_of_its_offset(after, #[trigger] r@[i]) by {
                if i == p {
                    assert(after[k as int] == e);
                    assert forall|k2: int| 0 <= k2 < k implies (#[trigger] after[k2]).offset != e.offset by {
                        assert(after[k2] == before[k2]);
                    }
                } else {
                    let oi = if i < p { i } else { i - 1 };
                    assert(r@[i] == old_r[oi]);
                    assert(first_of_its_offset(before, old_r[oi]));
                    let kw = choose|kw: int|
                        0 <= kw < before.len() && before[kw] == old_r[oi] && forall|k2: int|
                            0 <= k2 < kw ==> (#[trigger] before[k2]).offset != old_r[oi].offset;
                    assert(after[kw] == before[kw]);
                    assert forall|k2: int| 0 <= k2 < kw implies (#[trigger] after[k2]).offset != r@[i].offset by {
                        assert(after[k2] == before[k2]);
                    }
                }
            }
        }
        k = k + 1;
    }
    assert(raw@.take(raw@.len() as int) =~= raw@);
    r
}

/// Every JPEG this container indexes: one per offset, in increasing order of
/// offset, each the first the walk found there.
pub fn find_embedded_jpegs(data: &[u8]) -> (r: Vec<Embedded>)
    ensures
        first_per_offset(r@, accept_all(data@, candidates(data@))),
{
    let cands = walk_candidates(data);
    let raw = accept_candidates(data, &cands);
    first_per_offset_of(&raw)
}


/// The preview whose pixel count is largest; of several that tie, the last.
pub open spec fn is_last_largest(r: Option<Embedded>, s: Seq<Embedded>) -> bool {
    match r {
        None => s.len() == 0,
        Some(e) => exists|k: int|
            0 <= k < s.len() && s[k] == e && (forall|j: int|
                0 <= j < s.len() ==> (#[trigger] s[j]).pixel_count() <= e.pixel_count()) && (
            forall|j: int| k < j < s.len() ==> (#[trigger] s[j]).pixel_count() < e.pixel_count()),
    }
}

/// The biggest embedded preview, which is the one worth working from.
pub fn largest_preview(data: &[u8]) -> (r: Option<Embedded>)
    ensures
        exists|v: Seq<Embedded>|
            first_per_offset(v, accept_all(data@, candidates(data@))) && is_last_largest(r, v),
{
    let all = find_embedded_jpegs(data);
    let mut best: Option<Embedded> = None;
    let mut bk: usize = 0;
    let mut i: usize = 0;
    while i < all.len()
        invariant
            i <= all@.len(),
            i == 0 <==> best is None,
            best matches Some(b) ==> (bk < i && all@[bk as int] == b && (forall|j: int|
                0 <= j < i ==> (#[trigger] all@[j]).pixel_count() <= b.pixel_count()) && (forall|
                j: int,
            |
                bk < j < i ==> (#[trigger] all@[j]).pixel_count() < b.pixel_count())),
        decreases all.len() - i,
    {
        let e = all[i];
        let take = match best {
            None => true,
            Some(b) => e.pixels() >= b.pixels(),
        };
        if take {
            best = Some(e);
            bk = i;
        }
        i = i + 1;
    }
    proof {
        match best {
            Some(b) => {
                assert(is_last_largest(best, all@)) by {
                    assert(0 <= bk < all@.len() && all@[bk as int] == b);
                }
            },
            None => {
                assert(all@.len() == 0);
            },
        }
        assert(first_per_offset(all@, accept_all(data@, candidates(data@))) && is_last_largest(
            best,
            all@,
        ));
    }
    best
}

proof fn lemma_offset_in(r: Seq<Embedded>, raw: Seq<Embedded>, e: Embedded)
    requires
        first_per_offset(r, raw),
        first_of_its_offset(raw, e),
    ensures
        exists|p: int| 0 <= p < r.len() && r[p].offset == e.offset,
{
    let k = choose|k: int|
        0 <= k < raw.len() && raw[k] == e && forall|k2: int|
            0 <= k2 < k ==> (#[trigger] raw[k2]).offset != e.offset;
    assert(has_offset(r, raw[k].offset));
}

proof fn lemma_same_offset_same_preview(raw: Seq<Embedded>, a: Embedded, b: Embedded)
    requires
        first_of_its_offset(raw, a),
        first_of_its_offset(raw, b),
        a.offset == b.offset,
    ensures
        a == b,
{
    let ka = choose|k: int|
        0 <= k < raw.len() && raw[k] == a && forall|k2: int|
            0 <= k2 < k ==> (#[trigger] raw[k2]).offset != a.offset;
    let kb = choose|k: int|
        0 <= k < raw.len() && raw[k] == b && forall|k2: int|
            0 <= k2 < k ==> (#[trigger] raw[k2]).offset != b.offset;
    if ka < kb {
        assert(raw[ka].offset != b.offset);
    } else if kb < ka {
        assert(raw[kb].offset != a.offset);
    }
}

/// Listing one preview per offset, the first found there, in order of
/// offset, leaves no choice: there is one such list.
proof fn lemma_first_per_offset_unique(r1: Seq<Embedded>, r2: Seq<Embedded>, raw: Seq<Embedded>)
    requires
        first_per_offset(r1, raw),
        first_per_offset(r2, raw),
    ensures
        r1 == r2,
{
    assert forall|i: int| 0 <= i < r1.len() && 0 <= i < r2.len() implies r1[i].offset
        == r2[i].offset by {
        lemma_offsets_agree(r1, r2, raw, i);
    }
    if r1.len() > r2.len() {
        let i = r2.len() as int;
        lemma_offset_in(r2, raw, r1[i]);
        let p = choose|p: int| 0 <= p < r2.len() && r2[p].offset == r1[i].offset;
        assert(r1[p].offset == r2[p].offset);
        assert(r1[p].offset < r1[i].offset);
    } else if r2.len() > r1.len() {
        let i = r1.len() as int;
        lemma_offset_in(r1, raw, r2[i]);
        let p = choose|p: int| 0 <= p < r1.len() && r1[p].offset == r2[i].offset;
        assert(r1[p].offset == r2[p].offset);
        assert(r2[p].offset < r2[i].offset);
    }
    assert forall|i: int| 0 <= i < r1.len() implies r1[i] == r2[i] by {
        lemma_same_offset_same_preview(raw, r1[i], r2[i]);
    }
    assert(r1 =~= r2);
}

proof fn lemma_offsets_agree(r1: Seq<Embedded>, r2: Seq<Embedded>, raw: Seq<Embedded>, i: int)
    requires
        first_per_offset(r1, raw),
        first_per_offset(r2, raw),
        0 <= i < r1.len(),
        0 <= i < r2.len(),
    ensures
        r1[i].offset == r2[i].offset,
    decreases i,
{
    if i > 0 {
        lemma_offsets_agree(r1, r2, raw, i - 1);
    }
    lemma_offset_in(r2, raw, r1[i]);
    let p = choose|p: int| 0 <= p < r2.len() && r2[p].offset == r1[i].offset;
    lemma_offset_in(r1, raw, r2[i]);
    let q = choose|q: int| 0 <= q < r1.len() && r1[q].offset == r2[i].offset;
    if p < i {
        lemma_offsets_agree(r1, r2, raw, p);
        assert(r1[p].offset < r1[i].offset);
    }
    if q < i {
        lemma_offsets_agree(r1, r2, raw, q);
        assert(r2[q].offset < r2[i].offset);
    }
    if p > i {
        assert(r2[i].offset < r2[p].offset);
    }
    if q > i {
        assert(r1[i].offset < r1[q].offset);
    }
}

/// The largest preview is one of the previews a file indexes, none of them
/// has more pixels, and there is one exactly when there is any preview at
/// all: for `list` as [`find_embedded_jpegs`] gives it and `largest` as
/// [`largest_preview`] gives it.
pub proof fn law_the_largest_preview_is_one_of_them(
    d: Seq<u8>,
    list: Seq<Embedded>,
    largest: Option<Embedded>,
)
    requires
        first_per_offset(list, accept_all(d, candidates(d))),
        exists|v: Seq<Embedded>|
            first_per_offset(v, accept_all(d, candidates(d))) && is_last_largest(largest, v),
    ensures
        largest is None <==> list.len() == 0,
        largest matches Some(e) ==> list.contains(e) && forall|j: int|
            0 <= j < list.len() ==> (#[trigger] list[j]).pixel_count() <= e.pixel_count(),
{
    let v = choose|v: Seq<Embedded>|
        first_per_offset(v, accept_all(d, candidates(d))) && is_last_largest(largest, v);
    lemma_first_per_offset_unique(v, list, accept_all(d, candidates(d)));
    if let Some(e) = largest {
        let k = choose|k: int|
            0 <= k < v.len() && v[k] == e && (forall|j: int|
                0 <= j < v.len() ==> (#[trigger] v[j]).pixel_count() <= e.pixel_count()) && (
            forall|j: int| k < j < v.len() ==> (#[trigger] v[j]).pixel_count() < e.pixel_count());
        assert(list[k] == e);
    }
}

// ---------------------------------------------------------------------------
// Candidate ranges from the directories alone.

/// Candidates with a length, widened for seeking.
pub open spec fn nonempty_ranges(c: Seq<(u32, u32)>) -> Seq<(u64, u64)>
    decreases c.len(),
{
    if c.len() == 0 {
        Seq::empty()
    } else {
        let prev = nonempty_ranges(c.drop_last());
        if c.last().1 > 0 {
            prev.push((c.last().0 as u64, c.last().1 as u64))
        } else {
            prev
        }
    }
}

/// `x` placed after every range at least as long, before the first shorter.
pub open spec fn insert_by_len(s: Seq<(u64, u64)>, x: (u64, u64)) -> Seq<(u64, u64)>
    decreases s.len(),
{
    if s.len() == 0 {
        seq![x]
    } else if s[0].1 < x.1 {
        seq![x] + s
    } else {
        seq![s[0]] + insert_by_len(s.drop_first(), x)
    }
}

/// Longest first; ranges of equal length keep the order they were found in.
pub open spec fn longest_first(s: Seq<(u64, u64)>) -> Seq<(u64, u64)>
    decreases s.len(),
{
    if s.len() == 0 {
        Seq::empty()
    } else {
        insert_by_len(longest_first(s.drop_last()), s.last())
    }
}

/// `s` without the entries that repeat the one just before them.
pub open spec fn without_repeats(s: Seq<(u64, u64)>) -> Seq<(u64, u64)>
    decreases s.len(),
{
    if s.len() <= 1 {
        s
    } else {
        let p = without_repeats(s.drop_last());
        if s[s.len() - 1] == s[s.len() - 2] {
            p
        } else {
            p.push(s.last())
        }
    }
}

pub proof fn lemma_insert_by_len(s: Seq<(u64, u64)>, x: (u64, u64), p: int)
    requires
        0 <= p <= s.len(),
        forall|q: int| 0 <= q < p ==> (#[trigger] s[q]).1 >= x.1,
        p < s.len() ==> s[p].1 < x.1,
    ensures
        insert_by_len(s, x) == s.insert(p, x),
    decreases s.len(),
{
    if s.len() == 0 {
        assert(s.insert(p, x) =~= seq![x]);
    } else if s[0].1 < x.1 {
        assert(p == 0);
        assert(s.insert(p, x) =~= seq![x] + s);
    } else {
        let t = s.drop_first();
        assert(p >= 1);
        assert forall|q: int| 0 <= q < p - 1 implies (#[trigger] t[q]).1 >= x.1 by {
            assert(t[q] == s[q + 1]);
        }
        lemma_insert_by_len(t, x, p - 1);
        assert(s.insert(p, x) =~= seq![s[0]] + t.insert(p - 1, x));
    }
}

fn collect_ranges(cands: &Vec<(u32, u32)>) -> (r: Vec<(u64, u64)>)
    ensures
        r@ == longest_first(nonempty_ranges(cands@)),
{
    let mut out: Vec<(u64, u64)> = Vec::new();
    let mut i: usize = 0;
    while i < cands.len()
        invariant
            i <= cands@.len(),
            out@ == longest_first(nonempty_ranges(cands@.take(i as int))),
        decreases cands.len() - i,
    {
        let (o, l) = cands[i];
        let ghost prev = cands@.take(i as int);
        assert(cands@.take(i + 1).drop_last() =~= prev);
        proof {
            assert(cands@.take(i + 1).last() == (o, l));
        }
        if l > 0 {
            let x = (o as u64, l as u64);
            proof {
                let nr = nonempty_ranges(prev);
                assert(nonempty_ranges(cands@.take(i + 1)) == nr.push(x));
                assert(nr.push(x).drop_last() =~= nr);
            }
            let mut p: usize = 0;
            while p < out.len() && out[p].1 >= x.1
                invariant
                    p <= out@.len(),
                    forall|q: int| 0 <= q < p ==> (#[trigger] out@[q]).1 >= x.1,
                decreases out.len() - p,
            {
                p = p + 1;
            }
            proof {
                lemma_insert_by_len(out@, x, p as int);
            }
            out.insert(p, x);
        }
        i = i + 1;
    }
    assert(cands@.take(cands@.len() as int) =~= cands@);
    out
}

fn remove_repeats(s: &Vec<(u64, u64)>) -> (r: Vec<(u64, u64)>)
    ensures
        r@ == without_repeats(s@),
{
    let mut out: Vec<(u64, u64)> = Vec::new();
    let mut i: usize = 0;
    while i < s.len()
        invariant
            i <= s@.len(),
            out@ == without_repeats(s@.take(i as int)),
        decreases s.len() - i,
    {
        let ghost t = s@.take(i + 1);
        assert(t.drop_last() =~= s@.take(i as int));
        let (a0, a1) = s[i];
        let repeat = if i == 0 {
            false
        } else {
            let (b0, b1) = s[i - 1];
            a0 == b0 && a1 == b1
        };
        if !repeat {
            out.push((a0, a1));
        }
        proof {
            if i == 0 {
                assert(t =~= seq![s@[0]]);
                assert(without_repeats(s@.take(0)) =~= Seq::empty());
            }
        }
        i = i + 1;
    }
    assert(s@.take(s@.len() as int) =~= s@);
    out
}

/// Candidate preview ranges read from the directories alone, longest first.
///
/// The directories live at the front of the file, but the preview data they
/// point at can be megabytes further in. This lets a caller parse the index
/// from a small head read and then seek straight to the bytes it wants.
pub fn preview_ranges(head: &[u8]) -> (r: Vec<(u64, u64)>)
    ensures
        r@ == without_repeats(longest_first(nonempty_ranges(candidates(head@)))),
{
    let cands = walk_candidates(head);
    let sorted = collect_ranges(&cands);
    remove_repeats(&sorted)
}

/// `a` keeps everything `b` holds, in place, and may hold more after it.
pub open spec fn keeps(a: Seq<(u32, u32)>, b: Seq<(u32, u32)>) -> bool {
    a.len() >= b.len() && forall|k: int| 0 <= k < b.len() ==> #[trigger] a[k] == b[k]
}

proof fn lemma_walk_keeps(d: Seq<u8>, be: bool, at: u32, st: Walk, fuel: nat)
    ensures
        keeps(walk(d, be, at, st, fuel).found, st.found),
    decreases fuel, 0int, 0int,
{
    if !(fuel == 0 || st.budget == 0 || st.seen.contains(at)) {
        let st1 = Walk { seen: st.seen.push(at), budget: (st.budget - 1) as nat, found: st.found };
        match read16(d, be, at as int) {
            None => {},
            Some(count) => if !(count > 512 || dir_entry(at as int, count as int) > d.len()) {
                let t = tags_upto(d, be, at as int, count as int);
                let st2 = Walk { found: own_candidates(t, st1.found), ..st1 };
                assert(keeps(st2.found, st.found));
                lemma_walk_list_keeps(d, be, t.subs, 0, st2, (fuel - 1) as nat);
                let st3 = walk_list(d, be, t.subs, 0, st2, (fuel - 1) as nat);
                assert(keeps(st3.found, st.found));
                match read32(d, be, dir_entry(at as int, count as int)) {
                    Some(next) => if next != 0 {
                        lemma_walk_keeps(d, be, next, st3, (fuel - 1) as nat);
                        let st4 = walk(d, be, next, st3, (fuel - 1) as nat);
                        assert(keeps(st4.found, st.found));
                    },
                    None => {},
                }
            },
        }
    }
}

proof fn lemma_walk_list_keeps(d: Seq<u8>, be: bool, subs: Seq<u32>, j: int, st: Walk, fuel: nat)
    ensures
        keeps(walk_list(d, be, subs, j, st, fuel).found, st.found),
    decreases fuel, 1int, subs.len() - j,
{
    if 0 <= j < subs.len() {
        lemma_walk_keeps(d, be, subs[j], st, fuel);
        let st2 = walk(d, be, subs[j], st, fuel);
        lemma_walk_list_keeps(d, be, subs, j + 1, st2, fuel);
        let st3 = walk_list(d, be, subs, j + 1, st2, fuel);
        assert(keeps(st3.found, st.found));
    }
}

/// A directory the walk enters that stores its image as one strip in JPEG
/// compression (6, old style, or 7, as CR2 and DNG previews are) makes that
/// strip a candidate, and one that names a JPEG interchange offset and
/// length makes that range one: the walk's candidates hold both.
pub proof fn law_a_directory_names_its_jpegs(d: Seq<u8>, be: bool, at: u32, st: Walk, fuel: nat)
    requires
        fuel > 0,
        st.budget > 0,
        !st.seen.contains(at),
        read16(d, be, at as int) is Some,
        read16(d, be, at as int).unwrap() <= 512,
        dir_entry(at as int, read16(d, be, at as int).unwrap() as int) <= d.len(),
    ensures
        ({
            let t = tags_upto(d, be, at as int, read16(d, be, at as int).unwrap() as int);
            let found = walk(d, be, at, st, fuel).found;
            &&& (t.compression == Some(6u32) || t.compression == Some(7u32)) && t.strips.len() == 1
                && t.counts.len() == 1 ==> found.contains((t.strips[0], t.counts[0]))
            &&& t.jpeg_offset is Some && t.jpeg_length is Some ==> found.contains(
                (t.jpeg_offset.unwrap(), t.jpeg_length.unwrap()),
            )
        }),
{
    let count = read16(d, be, at as int).unwrap();
    let t = tags_upto(d, be, at as int, count as int);
    let st1 = Walk { seen: st.seen.push(at), budget: (st.budget - 1) as nat, found: st.found };
    let own = own_candidates(t, st1.found);
    let st2 = Walk { found: own, ..st1 };
    lemma_walk_list_keeps(d, be, t.subs, 0, st2, (fuel - 1) as nat);
    let st3 = walk_list(d, be, t.subs, 0, st2, (fuel - 1) as nat);
    let found = walk(d, be, at, st, fuel).found;
    match read32(d, be, dir_entry(at as int, count as int)) {
        Some(next) => if next != 0 {
            lemma_walk_keeps(d, be, next, st3, (fuel - 1) as nat);
        },
        None => {},
    }
    assert(keeps(found, own));
    if (t.compression == Some(6u32) || t.compression == Some(7u32)) && t.strips.len() == 1 && t.counts.len() == 1 {
        let k = own.len() - 1;
        assert(own[k] == (t.strips[0], t.counts[0]));
        assert(found[k] == own[k]);
    }
    if t.jpeg_offset is Some && t.jpeg_length is Some {
        let k = st.found.len() as int;
        assert(own[k] == (t.jpeg_offset.unwrap(), t.jpeg_length.unwrap()));
        assert(found[k] == own[k]);
    }
}

proof fn lemma_accept_all_has(d: Seq<u8>, c: Seq<(u32, u32)>, k: int)
    requires
        0 <= k < c.len(),
        accepted(d, c[k].0 as int, c[k].1 as int) is Some,
    ensures
        accept_all(d, c).contains(accepted(d, c[k].0 as int, c[k].1 as int).unwrap()),
    decreases c.len(),
{
    let prev = accept_all(d, c.drop_last());
    if k < c.len() - 1 {
        lemma_accept_all_has(d, c.drop_last(), k);
        assert(c.drop_last()[k] == c[k]);
        let e = accepted(d, c[k].0 as int, c[k].1 as int).unwrap();
        let w = choose|w: int| 0 <= w < prev.len() && prev[w] == e;
        match accepted(d, c.last().0 as int, c.last().1 as int) {
            Some(x) => assert(prev.push(x)[w] == e),
            None => {},
        }
    } else {
        let e = accepted(d, c[k].0 as int, c[k].1 as int).unwrap();
        assert(prev.push(e)[prev.len() as int] == e);
    }
}

/// A JPEG in the first directory's single JPEG-compressed strip is found:
/// for a classic TIFF (a CR2, a DNG) whose first directory stores its image
/// as one strip in compression 6 or 7, a valid JPEG in that strip is among
/// the previews that [`find_embedded_jpegs`] lists (`r`, one per offset).
pub proof fn law_a_strip_jpeg_is_found(d: Seq<u8>, be: bool, r: Seq<Embedded>)
    requires
        d.len() >= 8,
        (d[0] == 0x49 && d[1] == 0x49 && !be) || (d[0] == 0x4D && d[1] == 0x4D && be),
        read16(d, be, 2) == Some(42u16),
        read32(d, be, 4) is Some,
        first_per_offset(r, accept_all(d, candidates(d))),
    ensures
        ({
            let at = read32(d, be, 4).unwrap();
            let count = read16(d, be, at as int);
            let t = tags_upto(d, be, at as int, count.unwrap() as int);
            count is Some && count.unwrap() <= 512 && dir_entry(at as int, count.unwrap() as int) <= d.len()
                && (t.compression == Some(6u32) || t.compression == Some(7u32)) && t.strips.len() == 1
                && t.counts.len() == 1 && accepted(d, t.strips[0] as int, t.counts[0] as int) is Some
                ==> has_offset(r, t.strips[0] as usize)
        }),
{
    let at = read32(d, be, 4).unwrap();
    let count = read16(d, be, at as int);
    if count is Some && count.unwrap() <= 512 && dir_entry(at as int, count.unwrap() as int) <= d.len() {
        let t = tags_upto(d, be, at as int, count.unwrap() as int);
        if (t.compression == Some(6u32) || t.compression == Some(7u32)) && t.strips.len() == 1
            && t.counts.len() == 1 && accepted(d, t.strips[0] as int, t.counts[0] as int) is Some {
            let init = Walk { seen: Seq::empty(), budget: MAX_IFDS as nat, found: Seq::empty() };
            law_a_directory_names_its_jpegs(d, be, at, init, MAX_IFDS as nat);
            let c = candidates(d);
            assert(c == walk(d, be, at, init, MAX_IFDS as nat).found);
            let pair = (t.strips[0], t.counts[0]);
            let k = choose|k: int| 0 <= k < c.len() && c[k] == pair;
            lemma_accept_all_has(d, c, k);
            let raw = accept_all(d, c);
            let e = accepted(d, t.strips[0] as int, t.counts[0] as int).unwrap();
            let w = choose|w: int| 0 <= w < raw.len() && raw[w] == e;
            assert(has_offset(r, raw[w].offset));
        }
    }
}

/// The directory at `at` can be read: its entry count is known, plausible,
/// and its entries lie within the data.
pub open spec fn dir_readable(d: Seq<u8>, be: bool, at: u32) -> bool {
    read16(d, be, at as int) is Some && read16(d, be, at as int).unwrap() <= 512 && dir_entry(
        at as int,
        read16(d, be, at as int).unwrap() as int,
    ) <= d.len()
}

/// The tags of the directory at `at`.
pub open spec fn dir_tags(d: Seq<u8>, be: bool, at: u32) -> Tags {
    tags_upto(d, be, at as int, read16(d, be, at as int).unwrap() as int)
}

/// `c` holds the JPEGs the tags `t` name: a single strip in compression 6
/// or 7, and the JPEG interchange range.
pub open spec fn holds_named(t: Tags, c: Seq<(u32, u32)>) -> bool {
    &&& (t.compression == Some(6u32) || t.compression == Some(7u32)) && t.strips.len() == 1
        && t.counts.len() == 1 ==> c.contains((t.strips[0], t.counts[0]))
    &&& t.jpeg_offset is Some && t.jpeg_length is Some ==> c.contains(
        (t.jpeg_offset.unwrap(), t.jpeg_length.unwrap()),
    )
}

proof fn lemma_keeps_named(t: Tags, a: Seq<(u32, u32)>, b: Seq<(u32, u32)>)
    requires
        holds_named(t, b),
        keeps(a, b),
    ensures
        holds_named(t, a),
{
    if (t.compression == Some(6u32) || t.compression == Some(7u32)) && t.strips.len() == 1 && t.counts.len() == 1 {
        let k = choose|k: int| 0 <= k < b.len() && b[k] == (t.strips[0], t.counts[0]);
        assert(a[k] == b[k]);
    }
    if t.jpeg_offset is Some && t.jpeg_length is Some {
        let k = choose|k: int| 0 <= k < b.len() && b[k] == (t.jpeg_offset.unwrap(), t.jpeg_length.unwrap());
        assert(a[k] == b[k]);
    }
}

/// The walk reaches past the first directory: in a classic TIFF whose first
/// directory can be read, the first of its sub-directories (a DNG's full
/// preview, an ARW's) is walked, and when it has none the next directory in
/// the chain (a CR2's thumbnail directory) is; every JPEG either names is a
/// candidate, as well as the first directory's own.
pub proof fn law_the_walk_reaches_sub_and_next_directories(d: Seq<u8>, be: bool)
    requires
        d.len() >= 8,
        (d[0] == 0x49 && d[1] == 0x49 && !be) || (d[0] == 0x4D && d[1] == 0x4D && be),
        read16(d, be, 2) == Some(42u16),
        read32(d, be, 4) is Some,
        dir_readable(d, be, read32(d, be, 4).unwrap()),
    ensures
        ({
            let at = read32(d, be, 4).unwrap();
            let t = dir_tags(d, be, at);
            let next = read32(d, be, dir_entry(at as int, read16(d, be, at as int).unwrap() as int));
            &&& holds_named(t, candidates(d))
            &&& t.subs.len() > 0 && t.subs[0] != at && dir_readable(d, be, t.subs[0]) ==> holds_named(
                dir_tags(d, be, t.subs[0]),
                candidates(d),
            )
            &&& t.subs.len() == 0 && next is Some && next.unwrap() != 0 && next.unwrap() != at
                && dir_readable(d, be, next.unwrap()) ==> holds_named(
                dir_tags(d, be, next.unwrap()),
                candidates(d),
            )
        }),
{
    let at = read32(d, be, 4).unwrap();
    let count = read16(d, be, at as int).unwrap();
    let t = dir_tags(d, be, at);
    let fuel = MAX_IFDS as nat;
    let init = Walk { seen: Seq::empty(), budget: MAX_IFDS as nat, found: Seq::empty() };
    let c = candidates(d);
    assert(c == walk(d, be, at, init, fuel).found);
    law_a_directory_names_its_jpegs(d, be, at, init, fuel);
    let st1 = Walk { seen: init.seen.push(at), budget: (init.budget - 1) as nat, found: init.found };
    let st2 = Walk { found: own_candidates(t, st1.found), ..st1 };
    let st3 = walk_list(d, be, t.subs, 0, st2, (fuel - 1) as nat);
    let nx = read32(d, be, dir_entry(at as int, count as int));
    // Everything after `st3` keeps what it found.
    match nx {
        Some(n) => if n != 0 {
            lemma_walk_keeps(d, be, n, st3, (fuel - 1) as nat);
        },
        None => {},
    }
    assert(keeps(c, st3.found));
    if t.subs.len() > 0 && t.subs[0] != at && dir_readable(d, be, t.subs[0]) {
        let s0 = t.subs[0];
        assert(!st2.seen.contains(s0)) by {
            if st2.seen.contains(s0) {
                let k = choose|k: int| 0 <= k < st2.seen.len() && st2.seen[k] == s0;
                assert(st2.seen[0] == at);
            }
        }
        law_a_directory_names_its_jpegs(d, be, s0, st2, (fuel - 1) as nat);
        let w = walk(d, be, s0, st2, (fuel - 1) as nat);
        assert(holds_named(dir_tags(d, be, s0), w.found));
        lemma_walk_list_keeps(d, be, t.subs, 1, w, (fuel - 1) as nat);
        assert(st3 == walk_list(d, be, t.subs, 1, w, (fuel - 1) as nat));
        lemma_keeps_named(dir_tags(d, be, s0), st3.found, w.found);
        lemma_keeps_named(dir_tags(d, be, s0), c, st3.found);
    }
    if t.subs.len() == 0 && nx is Some && nx.unwrap() != 0 && nx.unwrap() != at && dir_readable(d, be, nx.unwrap()) {
        let n = nx.unwrap();
        assert(st3 == st2);
        assert(!st3.seen.contains(n)) by {
            if st3.seen.contains(n) {
                let k = choose|k: int| 0 <= k < st3.seen.len() && st3.seen[k] == n;
                assert(st3.seen[0] == at);
            }
        }
        law_a_directory_names_its_jpegs(d, be, n, st3, (fuel - 1) as nat);
        assert(c == walk(d, be, n, st3, (fuel - 1) as nat).found);
    }
}

} // verus!
