use laya_snake::tensors::{check_encoder_sizes, find_tensor, header_base, matrix_offset, read_index, vector_span, SizeError, TensorInfo, VectorKind, WeightsError};

/// A small safetensors file: the header, then `data`.
fn file(header: &str, data: &[u8]) -> Vec<u8> {
    let mut out = (header.len() as u64).to_le_bytes().to_vec();
    out.extend_from_slice(header.as_bytes());
    out.extend_from_slice(data);
    out
}

const HEADER: &str = r#"{"m":{"dtype":"F16","shape":[2,2],"data_offsets":[0,8]},"__metadata__":{"format":"pt"},"v":{"dtype":"F32","shape":[1],"data_offsets":[8,12]}}"#;

#[test]
fn header_length_comes_first() {
    let f = file(HEADER, &[0; 12]);
    assert_eq!(header_base(&f).unwrap(), 8 + HEADER.len());
    assert!(matches!(header_base(&f[..5]), Err(WeightsError::TooSmall)));
    let mut bad = f.clone();
    bad[0] = 0xff;
    bad[1] = 0xff;
    assert!(matches!(header_base(&bad), Err(WeightsError::BadHeaderLength)));
    // A length of 2^56: the eighth byte is the most significant.
    let mut huge = vec![0u8; 16];
    huge[7] = 1;
    assert!(matches!(header_base(&huge), Err(WeightsError::BadHeaderLength)));
}

#[test]
fn index_lists_the_tensors() {
    let f = file(HEADER, &[0; 12]);
    let base = header_base(&f).unwrap();
    let index = read_index(&f, base).unwrap();
    assert_eq!(index.len(), 2);
    assert!(find_tensor(&index, "__metadata__").is_none());
    let m = &index[find_tensor(&index, "m").unwrap()].1;
    assert_eq!((m.dtype.as_str(), m.shape.clone(), m.start, m.end), ("F16", vec![2, 2], 0, 8));
    assert!(find_tensor(&index, "w").is_none());
}

#[test]
fn index_rejects_tensors_outside_the_file() {
    let f = file(HEADER, &[0; 11]);
    let base = header_base(&f).unwrap();
    assert!(matches!(read_index(&f, base), Err(WeightsError::OutsideFile(n)) if n == "v"));
    let f = file(r#"{"a":{"shape":[1],"data_offsets":[0,2]}}"#, &[0; 2]);
    assert!(matches!(read_index(&f, header_base(&f).unwrap()), Err(WeightsError::NoDtype(_))));
    let f = file(r#"{"a":{"dtype":"F16","shape":[1],"data_offsets":[2,0]}}"#, &[0; 2]);
    assert!(matches!(read_index(&f, header_base(&f).unwrap()), Err(WeightsError::OutsideFile(_))));
    let f = file(r#"{"a":{"dtype":"F16","shape":[1],"data_offsets":[0]}}"#, &[0; 2]);
    assert!(matches!(read_index(&f, header_base(&f).unwrap()), Err(WeightsError::BadOffsets(_))));
    let f = file("not json", &[]);
    assert!(matches!(read_index(&f, header_base(&f).unwrap()), Err(WeightsError::Header(_))));
}

fn info(dtype: &str, shape: Vec<usize>, start: usize, end: usize) -> TensorInfo {
    TensorInfo { dtype: dtype.to_string(), shape, start, end }
}

#[test]
fn matrices_must_fit_their_shape() {
    let m = info("F16", vec![2, 3], 4, 16);
    assert_eq!(matrix_offset(&m, "m", 100, 200, 2, 3).unwrap(), 104);
    assert!(matches!(matrix_offset(&m, "m", 100, 200, 3, 2), Err(WeightsError::WrongShape(_))));
    assert!(matches!(matrix_offset(&m, "m", 101, 200, 2, 3), Err(WeightsError::Misaligned(_))));
    let short = info("F16", vec![2, 3], 4, 14);
    assert!(matches!(matrix_offset(&short, "m", 100, 200, 2, 3), Err(WeightsError::Misaligned(_))));
    let f32m = info("F32", vec![2, 3], 0, 24);
    assert!(matches!(matrix_offset(&f32m, "m", 100, 200, 2, 3), Err(WeightsError::NotF16(_))));
}

#[test]
fn vectors_are_f16_or_f32() {
    assert_eq!(vector_span(&info("F32", vec![3], 0, 12), "v", 10, 3).unwrap(), (10, 22, VectorKind::F32));
    assert_eq!(vector_span(&info("F16", vec![3], 2, 8), "v", 10, 3).unwrap(), (12, 18, VectorKind::F16));
    assert!(matches!(vector_span(&info("F16", vec![3], 2, 8), "v", 10, 4), Err(WeightsError::WrongShape(_))));
    assert!(matches!(vector_span(&info("BF16", vec![3], 2, 8), "v", 10, 3), Err(WeightsError::UnsupportedDtype(_))));
}

#[test]
fn encoder_sizes_the_fast_engine_runs() {
    assert_eq!(check_encoder_sizes(768, 12, 1152), Ok(()));
    assert_eq!(check_encoder_sizes(768, 11, 1152), Err(SizeError::HeadSize));
    assert_eq!(check_encoder_sizes(64, 1, 100), Err(SizeError::NotEightWide));
    assert_eq!(check_encoder_sizes(0, usize::MAX, 8), Err(SizeError::HeadSize));
}
