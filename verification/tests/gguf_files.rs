use gguf_infer::gguf::{
    align_to, read_metadata_value, read_metadata_value_by_type, GgufDataType, GgufError, GgufFile,
    Metadata, MetadataValue, Reader, TensorInfo, ALIGNMENT, GGUF_MAGIC, GGUF_VERSION,
};
use gguf_infer::utf8::Utf8Fault;

fn put_u32(out: &mut Vec<u8>, v: u32) {
    out.extend_from_slice(&v.to_le_bytes());
}

fn put_u64(out: &mut Vec<u8>, v: u64) {
    out.extend_from_slice(&v.to_le_bytes());
}

fn put_text(out: &mut Vec<u8>, s: &str) {
    put_u64(out, s.len() as u64);
    out.extend_from_slice(s.as_bytes());
}

fn header(n_tensors: u64, n_kv: u64) -> Vec<u8> {
    let mut out = Vec::new();
    put_u32(&mut out, GGUF_MAGIC);
    put_u32(&mut out, GGUF_VERSION);
    put_u64(&mut out, n_tensors);
    put_u64(&mut out, n_kv);
    out
}

fn entry(key: &str, type_id: u32, payload: &[u8]) -> Vec<u8> {
    let mut out = Vec::new();
    put_text(&mut out, key);
    put_u32(&mut out, type_id);
    out.extend_from_slice(payload);
    out
}

fn tensor(name: &str, dims: &[u64], type_id: u32, offset: u64) -> Vec<u8> {
    let mut out = Vec::new();
    put_text(&mut out, name);
    put_u32(&mut out, dims.len() as u32);
    for &d in dims {
        put_u64(&mut out, d);
    }
    put_u32(&mut out, type_id);
    put_u64(&mut out, offset);
    out
}

fn sample() -> Vec<u8> {
    let mut data = header(2, 3);
    data.extend(entry("n", 4, &7u32.to_le_bytes()));
    let mut text = Vec::new();
    put_text(&mut text, "llama");
    data.extend(entry("general.architecture", 8, &text));
    let mut array = Vec::new();
    put_u32(&mut array, 5);
    put_u64(&mut array, 2);
    array.extend_from_slice(&(-1i32).to_le_bytes());
    array.extend_from_slice(&9i32.to_le_bytes());
    data.extend(entry("a", 9, &array));
    data.extend(tensor("x.weight", &[4, 2], 0, 0));
    data.extend(tensor("y.weight", &[32], 8, 32));
    data
}

#[test]
fn a_file_is_parsed() {
    let data = sample();
    let file = GgufFile::parse(&data).unwrap();
    assert_eq!(file.version, 3);
    assert_eq!(file.n_tensors, 2);
    assert_eq!(file.tensor_names(), vec!["x.weight", "y.weight"]);
    assert_eq!(file.get_metadata("n").unwrap().to_u64(), Some(7));
    let arch = file.get_metadata("general.architecture").unwrap();
    assert_eq!(arch.to_str(), Some("llama"));
    let array = file.get_metadata("a").unwrap().to_array().unwrap();
    assert_eq!(array.len(), 2);
    assert_eq!(array[0].to_i32(), Some(-1));
    assert!(file.get_metadata("absent").is_none());
    let y = file.get_tensor("y.weight").unwrap();
    assert_eq!(y.dims, vec![32]);
    assert_eq!(y.n_dims, 1);
    assert_eq!(y.data_type, GgufDataType::Q8_0);
    assert_eq!(y.offset, file.data_offset + 32);
    assert_eq!(file.get_tensor("x.weight").unwrap().offset, file.data_offset);
    assert!(file.get_tensor("z").is_none());
}

#[test]
fn data_starts_at_the_next_multiple() {
    let data = sample();
    let file = GgufFile::parse(&data).unwrap();
    assert_eq!(file.data_offset, align_to(data.len() as u64, ALIGNMENT));
    assert_eq!(align_to(0, 32), 0);
    assert_eq!(align_to(1, 32), 32);
    assert_eq!(align_to(32, 32), 32);
    assert_eq!(align_to(33, 32), 64);
    assert_eq!(align_to(7, 5), 10);
}

#[test]
fn an_offset_past_the_file_is_an_error() {
    let mut data = header(1, 0);
    data.extend(tensor("x", &[1], 0, u64::MAX));
    let e = GgufFile::parse(&data).err().unwrap();
    assert_eq!(e, GgufError::OffsetTooLarge);
    assert_eq!(e.message(), "Tensor offset too large");
    let mut data = header(1, 0);
    data.extend(tensor("x", &[1], 0, u64::MAX - 64));
    let file = GgufFile::parse(&data).unwrap();
    assert_eq!(file.data_offset, 64);
    assert_eq!(file.tensors[0].offset, u64::MAX);
}

#[test]
fn a_value_is_read_as_its_type_says() {
    for (t, payload) in [
        (0u32, vec![7u8]),
        (1, vec![255]),
        (2, vec![1, 2]),
        (3, vec![255, 255]),
        (4, vec![1, 2, 3, 4]),
        (5, vec![255; 4]),
        (6, vec![0, 0, 128, 63]),
        (7, vec![1]),
        (8, vec![2, 0, 0, 0, 0, 0, 0, 0, 104, 105]),
        (10, vec![1; 8]),
        (11, vec![255; 8]),
        (12, vec![0, 0, 0, 0, 0, 0, 240, 63]),
    ] {
        let mut data = Vec::new();
        put_u32(&mut data, t);
        data.extend_from_slice(&payload);
        data.push(99);
        let mut r = Reader::new(&data);
        let v = read_metadata_value(&mut r).unwrap();
        assert_eq!(r.position(), 4 + payload.len());
        let mut e = Reader::new(&payload);
        let w = read_metadata_value_by_type(&mut e, t).unwrap();
        assert_eq!(e.position(), payload.len());
        assert_eq!(format!("{:?}", v), format!("{:?}", w));
    }
    for t in [13u32, 256, u32::MAX] {
        let data = t.to_le_bytes();
        let e = read_metadata_value(&mut Reader::new(&data)).err().unwrap();
        assert_eq!(e, GgufError::UnknownValueType(t));
    }
}

#[test]
fn elements_of_an_array_follow_each_other() {
    let mut data = Vec::new();
    put_u32(&mut data, 9);
    put_u32(&mut data, 8);
    put_u64(&mut data, 2);
    put_text(&mut data, "one");
    put_text(&mut data, "three");
    let mut r = Reader::new(&data);
    let v = read_metadata_value(&mut r).unwrap();
    assert_eq!(r.position(), data.len());
    let a = v.to_array().unwrap();
    assert_eq!(a.len(), 2);
    assert_eq!(a[0].to_str(), Some("one"));
    assert_eq!(a[1].to_str(), Some("three"));
}

#[test]
fn arrays_do_not_nest() {
    let mut data = Vec::new();
    put_u32(&mut data, 9);
    put_u32(&mut data, 9);
    put_u64(&mut data, 0);
    let v = read_metadata_value(&mut Reader::new(&data)).unwrap();
    assert_eq!(v.to_array().unwrap().len(), 0);
    data[8] = 1;
    let e = read_metadata_value(&mut Reader::new(&data)).err().unwrap();
    assert_eq!(e, GgufError::UnknownArrayType(9));
}

#[test]
fn parsing_needs_only_a_prefix() {
    let mut data = sample();
    for cut in 0..data.len() {
        assert!(matches!(GgufFile::parse(&data[..cut]), Err(GgufError::UnexpectedEof)));
    }
    let short = GgufFile::parse(&data).unwrap();
    data.extend_from_slice(&[1, 2, 3, 4, 5]);
    let long = GgufFile::parse(&data).unwrap();
    assert_eq!(short.data_offset, long.data_offset);
    assert_eq!(short.tensor_names(), long.tensor_names());
}

#[test]
fn every_value_type_is_read() {
    let mut data = header(0, 12);
    data.extend(entry("u8", 0, &[200]));
    data.extend(entry("i8", 1, &[0xFF]));
    data.extend(entry("u16", 2, &[0x34, 0x12]));
    data.extend(entry("i16", 3, &[0xFE, 0xFF]));
    data.extend(entry("i32", 5, &(-5i32).to_le_bytes()));
    data.extend(entry("f32", 6, &1.5f32.to_le_bytes()));
    data.extend(entry("t", 7, &[2]));
    data.extend(entry("f", 7, &[0]));
    data.extend(entry("u64", 10, &u64::MAX.to_le_bytes()));
    data.extend(entry("i64", 11, &(-2i64).to_le_bytes()));
    data.extend(entry("f64", 12, &0.1f64.to_le_bytes()));
    data.extend(entry("u32", 4, &u32::MAX.to_le_bytes()));
    let file = GgufFile::parse(&data).unwrap();
    let get = |key: &str| file.get_metadata(key).unwrap();
    assert_eq!(get("u8").to_u8(), Some(200));
    assert_eq!(get("i8").to_u8(), Some(255));
    assert_eq!(get("i8").to_i32(), Some(-1));
    assert_eq!(get("u16").to_i32(), Some(0x1234));
    assert_eq!(get("i16").to_i32(), Some(-2));
    assert_eq!(get("i32").to_i32(), Some(-5));
    assert_eq!(get("f32").to_f32(), Some(1.5f32.to_bits()));
    assert_eq!(get("f32").to_f64(), Some(1.5f64.to_bits()));
    assert!(matches!(get("t"), MetadataValue::Bool(true)));
    assert!(matches!(get("f"), MetadataValue::Bool(false)));
    assert_eq!(get("u64").to_u64(), Some(u64::MAX));
    assert_eq!(get("i64").to_u64(), Some(u64::MAX - 1));
    assert_eq!(get("f64").to_f32(), Some(0.1f32.to_bits()));
    assert_eq!(get("f64").to_f64(), Some(0.1f64.to_bits()));
    assert_eq!(get("u32").to_i32(), Some(-1));
    assert_eq!(get("u32").to_u64(), Some(u32::MAX as u64));
    assert_eq!(get("i32").to_u64(), None);
    assert_eq!(get("u16").to_u64(), None);
    assert_eq!(get("i32").to_u8(), None);
    assert_eq!(get("u64").to_i32(), None);
    assert_eq!(get("i32").to_f32(), None);
    assert_eq!(get("i32").to_string_ref(), None);
    assert!(get("i32").to_array().is_none());
}

#[test]
fn a_wrong_magic_is_an_error() {
    let mut data = sample();
    data[0] = 0x48;
    let e = GgufFile::parse(&data).err().unwrap();
    assert_eq!(e.message(), "Invalid GGUF magic: 0x46554748 (expected 0x46554747)");
}

#[test]
fn another_version_is_an_error() {
    let mut data = sample();
    data[4] = 2;
    let e = GgufFile::parse(&data).err().unwrap();
    assert_eq!(e.message(), "Unsupported GGUF version: 2 (only v3 supported)");
}

#[test]
fn an_unknown_tensor_type_is_an_error() {
    let mut data = header(1, 0);
    data.extend(tensor("t", &[1], 4, 0));
    let e = GgufFile::parse(&data).err().unwrap();
    assert!(matches!(e, GgufError::UnknownTensorType(4)));
    assert_eq!(e.message(), "Unknown tensor data type: 4");
}

#[test]
fn an_unknown_value_type_is_an_error() {
    let mut data = header(0, 1);
    data.extend(entry("k", 13, &[]));
    let e = GgufFile::parse(&data).err().unwrap();
    assert_eq!(e.message(), "Unknown metadata value type: 13");
}

#[test]
fn an_unknown_element_type_is_an_error() {
    let mut data = header(0, 1);
    let mut nested = Vec::new();
    put_u32(&mut nested, 9);
    put_u64(&mut nested, 1);
    data.extend(entry("k", 9, &nested));
    let e = GgufFile::parse(&data).err().unwrap();
    assert_eq!(e.message(), "Unknown metadata array element type: 9");
    let mut empty = header(0, 1);
    let mut none = Vec::new();
    put_u32(&mut none, 9);
    put_u64(&mut none, 0);
    empty.extend(entry("k", 9, &none));
    let file = GgufFile::parse(&empty).unwrap();
    assert_eq!(file.get_metadata("k").unwrap().to_array().unwrap().len(), 0);
}

#[test]
fn a_key_that_is_no_text_is_an_error() {
    let mut data = header(0, 1);
    put_u64(&mut data, 2);
    data.extend_from_slice(&[0xC3, 0x28]);
    put_u32(&mut data, 0);
    data.push(1);
    let e = GgufFile::parse(&data).err().unwrap();
    assert_eq!(
        e,
        GgufError::InvalidUtf8(Utf8Fault { valid_up_to: 0, error_len: Some(1) })
    );
    assert_eq!(e.message(), "Invalid UTF-8: invalid utf-8 sequence of 1 bytes from index 0");
}

#[test]
fn a_file_that_ends_early_is_an_error() {
    let e = GgufFile::parse(&[0x47, 0x47]).err().unwrap();
    assert_eq!(e.message(), "failed to fill whole buffer");
    let mut huge = header(0, 1);
    put_u64(&mut huge, u64::MAX);
    assert!(matches!(GgufFile::parse(&huge), Err(GgufError::UnexpectedEof)));
}

#[test]
fn the_last_entry_of_a_key_counts() {
    let mut data = header(0, 2);
    data.extend(entry("k", 0, &[1]));
    data.extend(entry("k", 0, &[2]));
    let file = GgufFile::parse(&data).unwrap();
    assert_eq!(file.get_metadata("k").unwrap().to_u8(), Some(2));
    let mut m = Metadata::new();
    m.insert(String::from("a"), MetadataValue::UInt8(1));
    m.insert(String::from("a"), MetadataValue::UInt8(9));
    assert_eq!(m.get("a").unwrap().to_u8(), Some(9));
    assert!(m.get("b").is_none());
}

#[test]
fn type_ids_read_back() {
    let known = [0u32, 1, 2, 3, 6, 7, 8, 9, 10, 11, 12, 13, 14];
    let mut seen = Vec::new();
    for id in 0..40u32 {
        let t = GgufDataType::from_u32(id);
        assert_eq!(t.is_some(), known.contains(&id));
        if let Some(t) = t {
            assert!(!seen.contains(&t));
            seen.push(t);
        }
    }
    assert_eq!(GgufDataType::from_u32(12), Some(GgufDataType::Q4_K));
}

#[test]
fn blocks_have_their_sizes() {
    let expected = [
        (GgufDataType::F32, 1, 4),
        (GgufDataType::F16, 1, 2),
        (GgufDataType::Q8_0, 32, 34),
        (GgufDataType::Q4_0, 32, 18),
        (GgufDataType::Q5_0, 32, 22),
        (GgufDataType::Q4_K, 256, 144),
        (GgufDataType::Q5_K, 256, 176),
        (GgufDataType::Q6_K, 256, 210),
        (GgufDataType::Q4_1, 32, 20),
        (GgufDataType::Q5_1, 32, 34),
        (GgufDataType::Q8_1, 32, 40),
        (GgufDataType::Q2_K, 256, 84),
        (GgufDataType::Q3_K, 256, 110),
    ];
    for (t, size, bytes) in expected {
        assert_eq!(t.block_size(), size);
        assert_eq!(t.bytes_per_block(), bytes);
        let average = bytes as f64 / size as f64;
        assert_eq!(t.bytes_per_element(), average.to_bits());
    }
}

#[test]
fn sizes_are_counted_in_doubles() {
    let info = |dims: Vec<usize>, data_type: GgufDataType| TensorInfo {
        name: String::from("t"),
        n_dims: dims.len(),
        dims,
        data_type,
        offset: 0,
    };
    assert_eq!(info(vec![4, 2], GgufDataType::F32).n_elements(), 8);
    assert_eq!(info(vec![4, 2], GgufDataType::F32).n_bytes(), 32);
    assert_eq!(info(vec![256, 3], GgufDataType::Q4_K).n_bytes(), 432);
    assert_eq!(info(vec![33], GgufDataType::Q8_0).n_bytes(), 35);
    let odd = info(vec![9007199254740993], GgufDataType::F16);
    assert_eq!(odd.n_bytes(), (9007199254740993usize as f64 * 2.0) as usize);
}
