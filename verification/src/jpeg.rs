//! Just enough JPEG parsing to size an image without decoding it.
use vstd::prelude::*;

verus! {

/// A big-endian 16-bit value read at `i`.
pub open spec fn be16(d: Seq<u8>, i: int) -> int {
    d[i] * 256 + d[i + 1]
}

/// Markers that stand alone, with no length after them.
pub open spec fn is_standalone_marker(m: u8) -> bool {
    m == 0xD8 || m == 0x01 || (0xD0 <= m && m <= 0xD7)
}

/// Start-Of-Frame markers: the C0..CF range minus DHT, JPG and DAC.
pub open spec fn is_sof_marker(m: u8) -> bool {
    0xC0 <= m && m <= 0xCF && m != 0xC4 && m != 0xC8 && m != 0xCC
}

/// The segment walk from byte `i`: skip fill bytes, skip standalone markers,
/// step over segments by their length, and stop at the first frame header.
pub open spec fn frame_size_from(d: Seq<u8>, i: int) -> Option<(u32, u32)>
    decreases d.len() - i,
{
    if i < 0 || !(i + 3 < d.len()) {
        None
    } else if d[i] != 0xFF {
        frame_size_from(d, i + 1)
    } else {
        let m = d[i + 1];
        let j = i + 2;
        if is_standalone_marker(m) {
            frame_size_from(d, j)
        } else if m == 0xD9 {
            None
        } else if j + 1 >= d.len() {
            None
        } else {
            let len = be16(d, j);
            if len < 2 || j + len > d.len() {
                None
            } else if is_sof_marker(m) {
                if len < 7 {
                    None
                } else {
                    let h = be16(d, j + 3);
                    let w = be16(d, j + 5);
                    if w > 0 && h > 0 {
                        Some((w as u32, h as u32))
                    } else {
                        None
                    }
                }
            } else {
                frame_size_from(d, j + len)
            }
        }
    }
}

/// Width and height of a JPEG, from its first frame header.
pub open spec fn jpeg_size(d: Seq<u8>) -> Option<(u32, u32)> {
    if d.len() >= 2 && d[0] == 0xFF && d[1] == 0xD8 {
        frame_size_from(d, 2)
    } else {
        None
    }
}

proof fn lemma_frame_size_extends(d: Seq<u8>, e: Seq<u8>, i: int)
    requires
        frame_size_from(d, i) is Some,
    ensures
        frame_size_from(d + e, i) == frame_size_from(d, i),
        frame_size_from(d, i) matches Some((w, h)) && w > 0 && h > 0,
    decreases d.len() - i,
{
    let de = d + e;
    assert(0 <= i && i + 3 < d.len());
    assert(de[i] == d[i]);
    if d[i] != 0xFF {
        lemma_frame_size_extends(d, e, i + 1);
    } else {
        let m = d[i + 1];
        assert(de[i + 1] == m);
        let j = i + 2;
        if is_standalone_marker(m) {
            lemma_frame_size_extends(d, e, j);
        } else {
            assert(de[j] == d[j] && de[j + 1] == d[j + 1]);
            assert(be16(de, j) == be16(d, j));
            let len = be16(d, j);
            if is_sof_marker(m) {
                assert(de[j + 3] == d[j + 3] && de[j + 4] == d[j + 4]);
                assert(de[j + 5] == d[j + 5] && de[j + 6] == d[j + 6]);
                assert(be16(de, j + 3) == be16(d, j + 3));
                assert(be16(de, j + 5) == be16(d, j + 5));
            } else {
                lemma_frame_size_extends(d, e, j + len);
            }
        }
    }
}

/// What the bytes after a JPEG's first frame header hold never changes its
/// size, and a size found has both sides positive: a file cut or padded
/// after the header reads the same.
pub proof fn law_bytes_after_the_frame_header_do_not_matter(d: Seq<u8>, e: Seq<u8>)
    requires
        jpeg_size(d) is Some,
    ensures
        jpeg_size(d + e) == jpeg_size(d),
        d.len() >= 2 && d[0] == 0xFF && d[1] == 0xD8,
        jpeg_size(d) matches Some((w, h)) && w > 0 && h > 0,
{
    assert((d + e)[0] == d[0] && (d + e)[1] == d[1]);
    lemma_frame_size_extends(d, e, 2);
}

/// Width and height from the first Start-Of-Frame marker.
pub fn dimensions(data: &[u8]) -> (r: Option<(u32, u32)>)
    ensures
        r == jpeg_size(data@),
{
    let n = data.len();
    if n < 2 || data[0] != 0xFF || data[1] != 0xD8 {
        return None;
    }
    let mut i: usize = 2;
    while i < n && n - i > 3
        invariant
            n == data@.len(),
            2 <= i <= n,
            jpeg_size(data@) == frame_size_from(data@, 2),
            frame_size_from(data@, 2) == frame_size_from(data@, i as int),
        decreases n - i,
    {
        if data[i] != 0xFF {
            // resynchronise over fill bytes or padding
            i = i + 1;
            continue;
        }
        let marker = data[i + 1];
        let j = i + 2;
        if marker == 0xD8 || marker == 0x01 || (0xD0 <= marker && marker <= 0xD7) {
            i = j;
            continue;
        }
        if marker == 0xD9 {
            return None;
        }
        if n - j <= 1 {
            return None;
        }
        let len = (data[j] as usize) * 256 + (data[j + 1] as usize);
        if len < 2 || len > n - j {
            return None;
        }
        if 0xC0 <= marker && marker <= 0xCF && marker != 0xC4 && marker != 0xC8 && marker != 0xCC {
            if len < 7 {
                return None;
            }
            let h = (data[j + 3] as u32) * 256 + (data[j + 4] as u32);
            let w = (data[j + 5] as u32) * 256 + (data[j + 6] as u32);
            assert(h as int == be16(data@, j + 3) && w as int == be16(data@, j + 5));
            if w > 0 && h > 0 {
                return Some((w, h));
            }
            return None;
        }
        i = j + len;
    }
    None
}

/// The position just past the first End-Of-Image marker at or after `i`.
pub open spec fn end_marker_from(d: Seq<u8>, i: int) -> Option<int>
    decreases d.len() - i,
{
    if i < 0 || !(i + 1 < d.len()) {
        None
    } else if d[i] == 0xFF && d[i + 1] == 0xD9 {
        Some(i + 2)
    } else {
        end_marker_from(d, i + 1)
    }
}

/// Offset just past the End-Of-Image marker, used to bound an embedded
/// preview whose recorded length is wrong or missing.
pub fn find_eoi(data: &[u8], from: usize) -> (r: Option<usize>)
    ensures
        match end_marker_from(data@, from as int) {
            Some(k) => r == Some(k as usize),
            None => r is None,
        },
{
    let n = data.len();
    let mut i = from;
    while i < n && n - i > 1
        invariant
            n == data@.len(),
            from <= i,
            end_marker_from(data@, from as int) == end_marker_from(data@, i as int),
        decreases n - i,
    {
        if data[i] == 0xFF && data[i + 1] == 0xD9 {
            return Some(i + 2);
        }
        i = i + 1;
    }
    None
}

} // verus!
