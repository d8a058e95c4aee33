use mc_mot::npy::{extract, load_f64_2d, read_f64_2d, try_load_f64_2d, NpyError};

fn file(version: u8, header: &[u8], data: &[u8]) -> Vec<u8> {
    let mut buf = vec![0x93, b'N', b'U', b'M', b'P', b'Y', version, 0];
    if version == 1 {
        buf.extend_from_slice(&(header.len() as u16).to_le_bytes());
    } else {
        buf.extend_from_slice(&(header.len() as u32).to_le_bytes());
    }
    buf.extend_from_slice(header);
    buf.extend_from_slice(data);
    buf
}

fn floats(values: &[f64]) -> Vec<u8> {
    values.iter().flat_map(|v| v.to_le_bytes()).collect()
}

const HEADER: &[u8] = b"{'descr': '<f8', 'fortran_order': False, 'shape': (2, 3), }   \n";

#[test]
fn values_of_a_header() {
    let header = "{'descr': '<f8', 'fortran_order': False, 'shape': (3, 3), }";
    assert_eq!(extract(header, "descr"), Some("'<f8'".to_string()));
    assert_eq!(extract(header, "fortran_order"), Some("False".to_string()));
    assert_eq!(extract(header, "shape"), Some("(3, 3)".to_string()));
    assert_eq!(extract(header, "other"), None);
}

#[test]
fn values_at_the_edges_of_a_header() {
    assert_eq!(extract("'a':   (1, (2)), 3)", "a"), Some("(1, (2))".to_string()));
    assert_eq!(extract("'a': (1, 2  ", "a"), Some("(1, 2".to_string()));
    assert_eq!(extract("'a': 'b", "a"), None);
    assert_eq!(extract("'a': ' b '", "a"), Some("' b '".to_string()));
    assert_eq!(extract("'a': True  }", "a"), Some("True".to_string()));
    assert_eq!(extract("'a': True  ", "a"), Some("True".to_string()));
    assert_eq!(extract("'a':", "a"), Some(String::new()));
    assert_eq!(extract("'a': 1, 'a': 2", "a"), Some("1".to_string()));
    assert_eq!(extract("é'a':\u{a0}ü }", "a"), Some("ü".to_string()));
}

#[test]
fn array_is_loaded() {
    let values = [1.5, -2.0, 0.0, 1e300, f64::MIN_POSITIVE, f64::INFINITY];
    for version in [1, 2, 3] {
        let buf = file(version, HEADER, &floats(&values));
        let (bits, rows, cols) = load_f64_2d(&buf).unwrap();
        assert_eq!((rows, cols), (2, 3));
        let loaded: Vec<f64> = bits.into_iter().map(f64::from_bits).collect();
        assert_eq!(loaded, values);
    }
}

#[test]
fn trailing_bytes_are_left_out() {
    let mut data = floats(&[0.0; 6]);
    data.extend_from_slice(&[1; 7]);
    assert!(load_f64_2d(&file(1, HEADER, &data)).is_ok());
    data.push(1);
    assert!(matches!(
        load_f64_2d(&file(1, HEADER, &data)),
        Err(NpyError::LengthMismatch)
    ));
}

#[test]
fn other_files_are_refused() {
    let error = load_f64_2d(b"\x93NUMPZ").unwrap_err();
    assert!(matches!(error, NpyError::NotNumpy));
    assert_eq!(error.message("h.npy"), "not a numpy file: h.npy");
}

#[test]
fn other_versions_are_refused() {
    let error = load_f64_2d(b"\x93NUMPY\x04").unwrap_err();
    assert!(matches!(error, NpyError::UnsupportedVersion(4)));
    assert_eq!(error.message("h.npy"), "unsupported npy version 4");
}

#[test]
fn other_types_are_refused() {
    let buf = file(1, b"{'descr': '<i8', 'shape': (1, 1), }", &[0; 8]);
    let error = load_f64_2d(&buf).unwrap_err();
    assert_eq!(error.message("h.npy"), "expected float dtype, got '<i8'");
    let error = load_f64_2d(&file(1, b"{'shape': (1, 1), }", &[0; 8])).unwrap_err();
    assert_eq!(error.message("h.npy"), "expected float dtype, got ");
}

#[test]
fn other_shapes_are_refused() {
    for (shape, text) in [
        ("(3,)", "(3,)"),
        ("(1, 2, 3)", "(1, 2, 3)"),
        ("()", "()"),
        ("(a, b)", "(a, b)"),
    ] {
        let header = format!("{{'descr': '<f8', 'shape': {shape}, }}");
        let error = load_f64_2d(&file(1, header.as_bytes(), &[])).unwrap_err();
        assert!(matches!(error, NpyError::NotTwoDimensional(_)));
        assert_eq!(
            error.message("h.npy"),
            format!("expected 2-D array, got shape {text}")
        );
    }
}

#[test]
fn pieces_of_a_shape_that_are_no_numbers_are_passed_over() {
    let read = read_f64_2d("'descr': 'f8', 'shape': ((+1 , x, 02 ,-1))", &[0; 16]).unwrap();
    assert_eq!(read, (vec![0, 0], 1, 2));
}

#[test]
fn wrong_lengths_are_refused() {
    let error = load_f64_2d(&file(1, HEADER, &floats(&[1.0; 5]))).unwrap_err();
    assert!(matches!(error, NpyError::LengthMismatch));
    assert_eq!(error.message("h.npy"), "array length mismatch");
}

#[test]
fn header_need_not_be_utf8() {
    let mut header = b"\xff\xfe{'descr': '<f8\xff', 'shape': (1, 1), }".to_vec();
    assert!(load_f64_2d(&file(1, &header, &floats(&[1.0]))).is_ok());
    header[14] = b'\xff';
    let error = load_f64_2d(&file(1, &header, &floats(&[1.0]))).unwrap_err();
    assert!(error.message("").contains('\u{fffd}'));
}

#[test]
fn short_files_are_not_loaded() {
    let buf = file(1, HEADER, &floats(&[1.0; 6]));
    let header_end = 10 + HEADER.len();
    for len in 0..header_end {
        let loaded = try_load_f64_2d(&buf[..len]);
        assert!(loaded.is_none());
    }
    let loaded = try_load_f64_2d(&buf[..header_end]).unwrap();
    assert!(matches!(loaded, Err(NpyError::LengthMismatch)));
    assert!(try_load_f64_2d(&buf).unwrap().is_ok());
    let loaded = try_load_f64_2d(b"not a file").unwrap();
    assert!(matches!(loaded, Err(NpyError::NotNumpy)));
}

#[test]
fn arrays_that_fit_no_memory_are_not_loaded() {
    let header = "{'descr': '<f8', 'shape': (4294967296, 4294967296), }";
    assert!(try_load_f64_2d(&file(2, header.as_bytes(), &[])).is_none());
    let header = "{'descr': '<f8', 'shape': (4294967296, 4), }";
    let loaded = try_load_f64_2d(&file(2, header.as_bytes(), &[])).unwrap();
    assert!(matches!(loaded, Err(NpyError::LengthMismatch)));
}

#[test]
fn array_without_elements() {
    let header = "{'descr': '<f4', 'shape': (0, 7), }";
    let loaded = load_f64_2d(&file(1, header.as_bytes(), &[])).unwrap();
    assert_eq!(loaded, (vec![], 0, 7));
}

#[test]
fn array_stored_by_column_is_loaded_by_row() {
    let header = b"{'descr': '<f8', 'fortran_order': True, 'shape': (2, 2), }";
    let buf = file(1, header, &floats(&[1.0, 3.0, 2.0, 4.0]));
    assert_eq!(buf[8], 58);
    let (bits, rows, cols) = load_f64_2d(&buf).unwrap();
    let loaded: Vec<f64> = bits.into_iter().map(f64::from_bits).collect();
    assert_eq!((loaded, rows, cols), (vec![1.0, 2.0, 3.0, 4.0], 2, 2));

    let header = b"{'descr': '<f8', 'fortran_order': True, 'shape': (2, 3), }";
    let buf = file(2, header, &floats(&[1.0, 4.0, 2.0, 5.0, 3.0, 6.0]));
    let (bits, rows, cols) = load_f64_2d(&buf).unwrap();
    let loaded: Vec<f64> = bits.into_iter().map(f64::from_bits).collect();
    assert_eq!((loaded, rows, cols), (vec![1.0, 2.0, 3.0, 4.0, 5.0, 6.0], 2, 3));

    let header = "{'descr': '<f8', 'fortran_order': True, 'shape': (0, 3), }";
    assert_eq!(read_f64_2d(header, &[]).unwrap(), (vec![], 0, 3));
}
