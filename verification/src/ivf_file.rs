//! The IVF6 index file, all little-endian:
//!
//! | section   | content                                   |
//! |-----------|-------------------------------------------|
//! | header    | `"IVF6"`, N, K, D, stride (u32), scale (f32) |
//! | centroids | K × D f32                                 |
//! | bbox_min  | K × D i16                                 |
//! | bbox_max  | K × D i16                                 |
//! | offsets   | (K + 1) u32                               |
//! | vectors   | N × D i16, row-major                      |
//! | labels    | N u8                                      |
//! | orig_ids  | N u32                                     |
//!
//! with K = 256 and D = stride = 14. Vectors are stored column-major in
//! memory. Bytes after the last section are ignored.
use vstd::prelude::*;
use crate::index::Index;

verus! {

/// The parts of the file, in order.
#[derive(Debug, Clone, Copy, PartialEq, Eq, Structural)]
pub enum Section {
    Magic,
    N,
    K,
    D,
    Stride,
    Scale,
    Centroids,
    BboxMin,
    BboxMax,
    Offsets,
    Vectors,
    Labels,
    OrigIds,
}

/// Why the bytes are not a usable index.
#[derive(Debug, Clone, Copy, PartialEq, Eq, Structural)]
pub enum IndexError {
    /// The file ends inside this section.
    Truncated(Section),
    /// The first four bytes are not `IVF6`.
    BadMagic(u8, u8, u8, u8),
    /// K, D or stride differ from 256, 14, 14.
    Incompatible(u32, u32, u32),
}

/// The fixed-size header.
#[derive(Debug, Clone, Copy, PartialEq, Eq, Structural)]
pub struct Header {
    pub n: u32,
    pub k: u32,
    pub d: u32,
    pub stride: u32,
    /// Bit pattern of the little-endian `f32` scale.
    pub scale_bits: u32,
}

pub open spec fn le_u32(b: Seq<u8>, off: int) -> int {
    b[off] + 256 * b[off + 1] + 65536 * b[off + 2] + 16777216 * b[off + 3]
}

pub open spec fn le_i16(b: Seq<u8>, off: int) -> int {
    let u = b[off] + 256 * b[off + 1];
    if u >= 32768 {
        u - 65536
    } else {
        u
    }
}

/// Where the sections end.
pub open spec fn centroids_at() -> int {
    24int
}

pub open spec fn bbox_min_at() -> int {
    24int + 256 * 14 * 4
}

pub open spec fn bbox_max_at() -> int {
    bbox_min_at() + 256 * 14 * 2
}

pub open spec fn offsets_at() -> int {
    bbox_max_at() + 256 * 14 * 2
}

pub open spec fn vectors_at() -> int {
    offsets_at() + 257 * 4
}

pub open spec fn labels_at(n: int) -> int {
    vectors_at() + 28 * n
}

pub open spec fn ids_at(n: int) -> int {
    labels_at(n) + n
}

pub open spec fn end_at(n: int) -> int {
    ids_at(n) + 4 * n
}

/// The header of `b`, or why it is not a compatible header.
pub open spec fn header_spec(b: Seq<u8>) -> Result<Header, IndexError> {
    if b.len() < 4 {
        Err(IndexError::Truncated(Section::Magic))
    } else if !(b[0] == 73 && b[1] == 86 && b[2] == 70 && b[3] == 54) {
        Err(IndexError::BadMagic(b[0], b[1], b[2], b[3]))
    } else if b.len() < 8 {
        Err(IndexError::Truncated(Section::N))
    } else if b.len() < 12 {
        Err(IndexError::Truncated(Section::K))
    } else if b.len() < 16 {
        Err(IndexError::Truncated(Section::D))
    } else if b.len() < 20 {
        Err(IndexError::Truncated(Section::Stride))
    } else if b.len() < 24 {
        Err(IndexError::Truncated(Section::Scale))
    } else if le_u32(b, 8) != 256 || le_u32(b, 12) != 14 || le_u32(b, 16) != 14 {
        Err(
            IndexError::Incompatible(
                le_u32(b, 8) as u32,
                le_u32(b, 12) as u32,
                le_u32(b, 16) as u32,
            ),
        )
    } else {
        Ok(
            Header {
                n: le_u32(b, 4) as u32,
                k: 256,
                d: 14,
                stride: 14,
                scale_bits: le_u32(b, 20) as u32,
            },
        )
    }
}

/// The first section that the body of `b`, holding `n` vectors, ends in.
pub open spec fn body_truncation(b: Seq<u8>, n: int) -> Option<Section> {
    if b.len() < bbox_min_at() {
        Some(Section::Centroids)
    } else if b.len() < bbox_max_at() {
        Some(Section::BboxMin)
    } else if b.len() < offsets_at() {
        Some(Section::BboxMax)
    } else if b.len() < vectors_at() {
        Some(Section::Offsets)
    } else if b.len() < labels_at(n) {
        Some(Section::Vectors)
    } else if b.len() < ids_at(n) {
        Some(Section::Labels)
    } else if b.len() < end_at(n) {
        Some(Section::OrigIds)
    } else {
        None
    }
}

/// `idx` holds exactly the sections of `b` for `n` vectors.
pub open spec fn holds_file(idx: &Index, b: Seq<u8>, n: int) -> bool {
    &&& idx.wf()
    &&& idx.n == n
    &&& idx.dims_buf@.len() == 14 * n
    &&& idx.labels@.len() == n
    &&& idx.orig_ids@.len() == n
    &&& idx.centroid_bits@.len() == 256 * 14
    &&& idx.bbox_min@.len() == 256 * 14
    &&& idx.bbox_max@.len() == 256 * 14
    &&& idx.offsets@.len() == 257
    &&& forall|k: int| 0 <= k < 256 * 14 ==> #[trigger] idx.centroid_bits@[k] == le_u32(b, 24 + 4 * k)
    &&& forall|k: int| 0 <= k < 256 * 14 ==> #[trigger] idx.bbox_min@[k] == le_i16(b, bbox_min_at() + 2 * k)
    &&& forall|k: int| 0 <= k < 256 * 14 ==> #[trigger] idx.bbox_max@[k] == le_i16(b, bbox_max_at() + 2 * k)
    &&& forall|c: int| 0 <= c < 257 ==> #[trigger] idx.offsets@[c] == le_u32(b, offsets_at() + 4 * c)
    &&& forall|j: int, i: int|
        0 <= j < 14 && 0 <= i < n ==> #[trigger] idx.dims_buf@[j * n + i] == le_i16(
            b,
            vectors_at() + 2 * (i * 14 + j),
        )
    &&& forall|i: int| 0 <= i < n ==> #[trigger] idx.labels@[i] == b[labels_at(n) + i]
    &&& forall|i: int| 0 <= i < n ==> #[trigger] idx.orig_ids@[i] == le_u32(b, ids_at(n) + 4 * i)
}

fn read_u32(b: &[u8], off: usize) -> (r: u32)
    requires
        off + 4 <= b@.len(),
    ensures
        r == le_u32(b@, off as int),
{
    b[off] as u32 + 256 * b[off + 1] as u32 + 65536 * b[off + 2] as u32 + 16777216 * b[off + 3] as u32
}

fn read_i16(b: &[u8], off: usize) -> (r: i16)
    requires
        off + 2 <= b@.len(),
    ensures
        r == le_i16(b@, off as int),
{
    let u: i32 = b[off] as i32 + 256 * b[off + 1] as i32;
    if u >= 32768 {
        (u - 65536) as i16
    } else {
        u as i16
    }
}

fn read_u32s(b: &[u8], at: usize, count: usize) -> (v: Vec<u32>)
    requires
        at + 4 * count <= b@.len(),
    ensures
        v@.len() == count,
        forall|k: int| 0 <= k < count ==> #[trigger] v@[k] == le_u32(b@, at + 4 * k),
{
    let mut v: Vec<u32> = Vec::new();
    let mut k: usize = 0;
    let blen = b.len();
    while k < count
        invariant
            blen == b@.len(),
            at + 4 * count <= b@.len(),
            k <= count,
            v@.len() == k,
            forall|t: int| 0 <= t < k ==> #[trigger] v@[t] == le_u32(b@, at + 4 * t),
        decreases count - k,
    {
        v.push(read_u32(b, at + 4 * k));
        k += 1;
    }
    v
}

fn read_i16s(b: &[u8], at: usize, count: usize) -> (v: Vec<i16>)
    requires
        at + 2 * count <= b@.len(),
    ensures
        v@.len() == count,
        forall|k: int| 0 <= k < count ==> #[trigger] v@[k] == le_i16(b@, at + 2 * k),
{
    let mut v: Vec<i16> = Vec::new();
    let mut k: usize = 0;
    let blen = b.len();
    while k < count
        invariant
            blen == b@.len(),
            at + 2 * count <= b@.len(),
            k <= count,
            v@.len() == k,
            forall|t: int| 0 <= t < k ==> #[trigger] v@[t] == le_i16(b@, at + 2 * t),
        decreases count - k,
    {
        v.push(read_i16(b, at + 2 * k));
        k += 1;
    }
    v
}

proof fn lemma_column_index(jj: int, ii: int, j: int, n: int)
    requires
        0 <= jj < j,
        0 <= ii < n,
    ensures
        jj * n + ii < j * n,
{
    assert(jj * n + ii < (jj + 1) * n) by (nonlinear_arith)
        requires
            0 <= ii < n,
    ;
    assert((jj + 1) * n <= j * n) by (nonlinear_arith)
        requires
            jj + 1 <= j,
            0 <= n,
    ;
}

proof fn lemma_row_offset(i: int, j: int, n: int)
    requires
        0 <= i < n,
        0 <= j < 14,
    ensures
        0 <= i * 14 + j < 14 * n,
        2 * (i * 14 + j) + 2 <= 28 * n,
{
    assert(i * 14 + j < 14 * n) by (nonlinear_arith)
        requires
            0 <= i < n,
            0 <= j < 14,
    ;
}

/// Transpose the row-major vectors at `at` into columns.
fn read_columns(b: &[u8], at: usize, n: usize) -> (v: Vec<i16>)
    requires
        at + 28 * n <= b@.len(),
    ensures
        v@.len() == 14 * n,
        forall|j: int, i: int|
            0 <= j < 14 && 0 <= i < n ==> #[trigger] v@[j * n + i] == le_i16(b@, at + 2 * (i * 14 + j)),
{
    let mut v: Vec<i16> = Vec::new();
    let mut j: usize = 0;
    let blen = b.len();
    while j < 14
        invariant
            blen == b@.len(),
            at + 28 * n <= b@.len(),
            j <= 14,
            v@.len() == j * n,
            forall|jj: int, ii: int|
                0 <= jj < j && 0 <= ii < n ==> #[trigger] v@[jj * n + ii] == le_i16(
                    b@,
                    at + 2 * (ii * 14 + jj),
                ),
        decreases 14 - j,
    {
        let mut i: usize = 0;
        while i < n
            invariant
                blen == b@.len(),
                at + 28 * n <= b@.len(),
                j < 14,
                i <= n,
                v@.len() == j * n + i,
                forall|jj: int, ii: int|
                    0 <= jj < j && 0 <= ii < n ==> #[trigger] v@[jj * n + ii] == le_i16(
                        b@,
                        at + 2 * (ii * 14 + jj),
                    ),
                forall|ii: int| 0 <= ii < i ==> #[trigger] v@[j * n + ii] == le_i16(b@, at + 2 * (ii * 14 + j)),
            decreases n - i,
        {
            proof {
                lemma_row_offset(i as int, j as int, n as int);
            }
            let x = read_i16(b, at + 2 * (i * 14 + j));
            let ghost before = v@;
            v.push(x);
            proof {
                assert forall|jj: int, ii: int| 0 <= jj < j && 0 <= ii < n implies #[trigger] v@[jj * n
                    + ii] == le_i16(b@, at + 2 * (ii * 14 + jj)) by {
                    lemma_column_index(jj, ii, j as int, n as int);
                    assert(v@[jj * n + ii] == before[jj * n + ii]);
                }
            }
            i += 1;
        }
        proof {
            assert((j + 1) * n == j * n + n) by (nonlinear_arith);
        }
        j += 1;
    }
    v
}

impl Index {
    /// Read and check the header: the magic, then N, K, D, stride and
    /// scale, then that K, D and stride are 256, 14 and 14.
    pub fn parse_header(bytes: &[u8]) -> (r: Result<Header, IndexError>)
        ensures
            r == header_spec(bytes@),
    {
        let len = bytes.len();
        if len < 4 {
            return Err(IndexError::Truncated(Section::Magic));
        }
        if !(bytes[0] == 73 && bytes[1] == 86 && bytes[2] == 70 && bytes[3] == 54) {
            return Err(IndexError::BadMagic(bytes[0], bytes[1], bytes[2], bytes[3]));
        }
        if len < 8 {
            return Err(IndexError::Truncated(Section::N));
        }
        if len < 12 {
            return Err(IndexError::Truncated(Section::K));
        }
        if len < 16 {
            return Err(IndexError::Truncated(Section::D));
        }
        if len < 20 {
            return Err(IndexError::Truncated(Section::Stride));
        }
        if len < 24 {
            return Err(IndexError::Truncated(Section::Scale));
        }
        let n = read_u32(bytes, 4);
        let k = read_u32(bytes, 8);
        let d = read_u32(bytes, 12);
        let stride = read_u32(bytes, 16);
        let scale_bits = read_u32(bytes, 20);
        if k != 256 || d != 14 || stride != 14 {
            return Err(IndexError::Incompatible(k, d, stride));
        }
        Ok(Header { n, k, d, stride, scale_bits })
    }

    /// Read the sections after a compatible header.
    pub fn parse_body(bytes: &[u8], header: &Header) -> (r: Result<Index, IndexError>)
        ensures
            match body_truncation(bytes@, header.n as int) {
                Some(s) => r == Err::<Index, IndexError>(IndexError::Truncated(s)),
                None => r matches Ok(idx) && holds_file(&idx, bytes@, header.n as int),
            },
    {
        let len = bytes.len() as u64;
        let n64 = header.n as u64;
        if len < 24 + 256 * 14 * 4 {
            return Err(IndexError::Truncated(Section::Centroids));
        }
        if len < 24 + 256 * 14 * 4 + 256 * 14 * 2 {
            return Err(IndexError::Truncated(Section::BboxMin));
        }
        if len < 24 + 256 * 14 * 4 + 2 * (256 * 14 * 2) {
            return Err(IndexError::Truncated(Section::BboxMax));
        }
        if len < 29724 {
            return Err(IndexError::Truncated(Section::Offsets));
        }
        if len < 29724 + 28 * n64 {
            return Err(IndexError::Truncated(Section::Vectors));
        }
        if len < 29724 + 29 * n64 {
            return Err(IndexError::Truncated(Section::Labels));
        }
        if len < 29724 + 33 * n64 {
            return Err(IndexError::Truncated(Section::OrigIds));
        }
        let n = header.n as usize;
        let centroid_bits = read_u32s(bytes, 24, 256 * 14);
        let bbox_min = read_i16s(bytes, 14360, 256 * 14);
        let bbox_max = read_i16s(bytes, 21528, 256 * 14);
        let offsets = read_u32s(bytes, 28696, 257);
        let dims_buf = read_columns(bytes, 29724, n);
        let labels_at = 29724 + 28 * n;
        let mut labels: Vec<u8> = Vec::new();
        let ulen = bytes.len();
        let mut i: usize = 0;
        while i < n
            invariant
                ulen == bytes@.len(),
                labels_at == 29724 + 28 * n,
                labels_at + n <= bytes@.len(),
                i <= n,
                labels@.len() == i,
                forall|t: int| 0 <= t < i ==> #[trigger] labels@[t] == bytes@[labels_at + t],
            decreases n - i,
        {
            labels.push(bytes[labels_at + i]);
            i += 1;
        }
        let orig_ids = read_u32s(bytes, labels_at + n, n);
        Ok(Index { n, dims_buf, labels, orig_ids, centroid_bits, bbox_min, bbox_max, offsets })
    }
}

}
