use sketchy::index::Index;
use sketchy::ivf_file::{Header, IndexError, Section};

fn header_bytes(n: u32, k: u32, d: u32, stride: u32) -> Vec<u8> {
    let mut b = b"IVF6".to_vec();
    for v in [n, k, d, stride] {
        b.extend_from_slice(&v.to_le_bytes());
    }
    b.extend_from_slice(&10000f32.to_le_bytes());
    b
}

/// A complete file for two vectors, with every section filled with
/// recognisable values.
fn file_bytes() -> Vec<u8> {
    let mut b = header_bytes(2, 256, 14, 14);
    for k in 0..256 * 14 {
        b.extend_from_slice(&(k as f32 * 0.5).to_le_bytes());
    }
    for k in 0..256 * 14 {
        b.extend_from_slice(&(-(k as i16)).to_le_bytes());
    }
    for k in 0..256 * 14 {
        b.extend_from_slice(&(k as i16).to_le_bytes());
    }
    for c in 0..257u32 {
        let off: u32 = if c == 0 { 0 } else if c == 1 { 1 } else { 2 };
        b.extend_from_slice(&off.to_le_bytes());
    }
    // Row-major vectors: vector i, coordinate j holds 100 * i + j - 7.
    for i in 0..2i16 {
        for j in 0..14i16 {
            b.extend_from_slice(&(100 * i + j - 7).to_le_bytes());
        }
    }
    b.extend_from_slice(&[1, 0]);
    b.extend_from_slice(&41u32.to_le_bytes());
    b.extend_from_slice(&7u32.to_le_bytes());
    b
}

#[test]
fn header_errors() {
    assert_eq!(Index::parse_header(b"IVF"), Err(IndexError::Truncated(Section::Magic)));
    assert_eq!(Index::parse_header(b"IVF7"), Err(IndexError::BadMagic(73, 86, 70, 55)));
    let full = header_bytes(3, 256, 14, 14);
    assert_eq!(Index::parse_header(&full[..6]), Err(IndexError::Truncated(Section::N)));
    assert_eq!(Index::parse_header(&full[..8]), Err(IndexError::Truncated(Section::K)));
    assert_eq!(Index::parse_header(&full[..12]), Err(IndexError::Truncated(Section::D)));
    assert_eq!(Index::parse_header(&full[..16]), Err(IndexError::Truncated(Section::Stride)));
    assert_eq!(Index::parse_header(&full[..23]), Err(IndexError::Truncated(Section::Scale)));
    assert_eq!(
        Index::parse_header(&header_bytes(3, 128, 14, 14)),
        Err(IndexError::Incompatible(128, 14, 14))
    );
    assert_eq!(
        Index::parse_header(&header_bytes(3, 256, 14, 16)),
        Err(IndexError::Incompatible(256, 14, 16))
    );
}

#[test]
fn header_fields() {
    let h = Index::parse_header(&header_bytes(3_000_000, 256, 14, 14)).unwrap();
    assert_eq!(
        h,
        Header { n: 3_000_000, k: 256, d: 14, stride: 14, scale_bits: 10000f32.to_bits() }
    );
}

#[test]
fn body_sections() {
    let bytes = file_bytes();
    let h = Index::parse_header(&bytes).unwrap();
    let idx = Index::parse_body(&bytes, &h).unwrap();
    assert_eq!(idx.n, 2);
    assert_eq!(idx.centroid_bits.len(), 256 * 14);
    assert_eq!(f32::from_bits(idx.centroid_bits[3]), 1.5);
    assert_eq!(idx.bbox_min[10], -10);
    assert_eq!(idx.bbox_max[3583], 3583);
    assert_eq!(idx.offsets[0], 0);
    assert_eq!(idx.offsets[1], 1);
    assert_eq!(idx.offsets[256], 2);
    // Column-major: coordinate j of vector i at j * n + i.
    assert_eq!(idx.dims_buf.len(), 28);
    assert_eq!(idx.dims_buf[0], -7);
    assert_eq!(idx.dims_buf[1], 93);
    assert_eq!(idx.dims_buf[2 * 2 + 1], 95);
    assert_eq!(idx.dims_buf[13 * 2], 6);
    assert_eq!(idx.labels, vec![1, 0]);
    assert_eq!(idx.orig_ids, vec![41, 7]);
    assert!(idx.is_searchable());
    // Trailing bytes are ignored.
    let mut longer = bytes.clone();
    longer.extend_from_slice(&[9, 9, 9]);
    assert_eq!(Index::parse_body(&longer, &h).unwrap().orig_ids, vec![41, 7]);
}

#[test]
fn body_truncation() {
    let bytes = file_bytes();
    let h = Index::parse_header(&bytes).unwrap();
    let cut = |len: usize| Index::parse_body(&bytes[..len], &h).err();
    assert_eq!(cut(24 + 100), Some(IndexError::Truncated(Section::Centroids)));
    assert_eq!(cut(14360 + 1), Some(IndexError::Truncated(Section::BboxMin)));
    assert_eq!(cut(21528 + 1), Some(IndexError::Truncated(Section::BboxMax)));
    assert_eq!(cut(28696 + 4), Some(IndexError::Truncated(Section::Offsets)));
    assert_eq!(cut(29724 + 55), Some(IndexError::Truncated(Section::Vectors)));
    assert_eq!(cut(29724 + 56 + 1), Some(IndexError::Truncated(Section::Labels)));
    assert_eq!(cut(29724 + 58 + 7), Some(IndexError::Truncated(Section::OrigIds)));
    assert_eq!(cut(29724 + 66), None);
}
