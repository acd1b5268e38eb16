//! Indexed files and the rows the planner reads.
use vstd::prelude::*;

verus! {

#[derive(Debug, Clone)]
pub struct FileRow {
    pub id: i64,
    pub path: String,
    pub name: String,
    pub size: i64,
    pub container: Option<String>,
    pub width: Option<i64>,
    pub height: Option<i64>,
    pub pixel_source: Option<String>,
    pub partial_hash: Option<Vec<u8>>,
    pub pixel_hash: Option<Vec<u8>>,
    pub phash: Option<i64>,
    pub dhash: Option<i64>,
    pub thumb_key: Option<String>,
    pub skipped_reason: Option<String>,
    /// `present` while the file is in the archive, `quarantined` once moved.
    pub state: String,
}

/// A dimension the index may not know; unknown counts as zero.
pub open spec fn known_or_zero(d: Option<i64>) -> int {
    match d {
        Some(v) => v as int,
        None => 0,
    }
}

impl FileRow {
    /// Width times height, an unknown dimension counting as zero.
    pub open spec fn pixel_count(&self) -> int {
        known_or_zero(self.width) * known_or_zero(self.height)
    }

    pub fn pixels(&self) -> (r: i64)
        requires
            i64::MIN <= self.pixel_count() <= i64::MAX,
        ensures
            r == self.pixel_count(),
    {
        let w = match self.width {
            Some(v) => v,
            None => 0,
        };
        let h = match self.height {
            Some(v) => v,
            None => 0,
        };
        w * h
    }
}

#[derive(Debug, Clone, Copy, Default)]
pub struct IndexStats {
    pub total: i64,
    pub images: i64,
    pub skipped: i64,
    /// Indexed frames with no thumbnail to show for them. Non-zero means a
    /// grey square somewhere in the interface, and an index run repairs it.
    pub without_thumb: i64,
}

#[derive(Debug, Clone)]
pub struct PlanRow {
    pub family_id: i64,
    pub file_id: i64,
    pub role: String,
    pub path: String,
    pub size: i64,
    pub width: i64,
    pub height: i64,
    pub mtime: i64,
    pub inode: i64,
    pub dev: i64,
    pub disk: String,
    pub pixel_hash: Option<Vec<u8>>,
    pub content_hash: Option<Vec<u8>>,
    pub is_keeper: bool,
}

#[derive(Debug, Clone)]
pub struct CategoryCount {
    pub category: String,
    pub count: i64,
    pub bytes: i64,
}

/// The `n` bytes of `b` from `off` read as a little-endian number.
pub open spec fn le_bytes(b: Seq<u8>, off: int, n: nat) -> int
    decreases n,
{
    if n == 0 {
        0
    } else {
        b[off] + 256 * le_bytes(b, off + 1, (n - 1) as nat)
    }
}

/// `256` to the power `n`.
pub open spec fn pow256(n: nat) -> int
    decreases n,
{
    if n == 0 {
        1
    } else {
        256 * pow256((n - 1) as nat)
    }
}

proof fn lemma_le_bytes_bound(b: Seq<u8>, off: int, n: nat)
    ensures
        0 <= le_bytes(b, off, n) < pow256(n),
    decreases n,
{
    if n > 0 {
        lemma_le_bytes_bound(b, off + 1, (n - 1) as nat);
    }
}

/// The five crop hashes stored as one blob: eight little-endian bytes each,
/// a hash the blob is too short for reading as zero.
pub open spec fn crop_hash(blob: Option<Vec<u8>>, i: int) -> int {
    match blob {
        Some(b) => if 8 * (i + 1) <= b@.len() {
            le_bytes(b@, 8 * i, 8)
        } else {
            0
        },
        None => 0,
    }
}

pub fn crops_from(blob: Option<Vec<u8>>) -> (out: [u64; 5])
    ensures
        forall|i: int| 0 <= i < 5 ==> out@[i] == crop_hash(blob, i),
{
    let mut out: [u64; 5] = [0, 0, 0, 0, 0];
    if let Some(b) = &blob {
        let mut i: usize = 0;
        while i < 5
            invariant
                i <= 5,
                blob == Some(*b),
                forall|j: int| 0 <= j < i ==> out@[j] == crop_hash(blob, j),
                forall|j: int| i <= j < 5 ==> out@[j] == 0,
            decreases 5 - i,
        {
            if 8 * (i + 1) <= b.len() {
                let mut v: u64 = 0;
                let mut k: usize = 8;
                while k > 0
                    invariant
                        k <= 8,
                        i < 5,
                        8 * (i + 1) <= b@.len(),
                        v == le_bytes(b@, 8 * i + k, (8 - k) as nat),
                    decreases k,
                {
                    proof {
                        lemma_le_bytes_bound(b@, 8 * i + k, (8 - k) as nat);
                        assert(pow256(8) == 0x1_0000_0000_0000_0000) by {
                            reveal_with_fuel(pow256, 9);
                        }
                        assert(pow256((8 - k + 1) as nat) == 256 * pow256((8 - k) as nat));
                        assert(pow256((8 - k + 1) as nat) <= pow256(8)) by {
                            lemma_pow256_mono((8 - k + 1) as nat, 8);
                        }
                        assert(v * 256 + 255 < 0x1_0000_0000_0000_0000) by (nonlinear_arith)
                            requires
                                v < pow256((8 - k) as nat),
                                256 * pow256((8 - k) as nat) <= 0x1_0000_0000_0000_0000;
                    }
                    v = v * 256 + b[8 * i + k - 1] as u64;
                    k = k - 1;
                }
                out[i] = v;
            }
            i = i + 1;
        }
    }
    out
}

proof fn lemma_pow256_mono(a: nat, b: nat)
    requires
        a <= b,
    ensures
        pow256(a) <= pow256(b),
    decreases b,
{
    if a < b {
        lemma_pow256_mono(a, (b - 1) as nat);
        lemma_pow256_pos((b - 1) as nat);
    }
}

proof fn lemma_pow256_pos(n: nat)
    ensures
        pow256(n) >= 1,
    decreases n,
{
    if n > 0 {
        lemma_pow256_pos((n - 1) as nat);
    }
}

} // verus!
