use pmd_flow::tool::{
    add_padding, read_sir0_footer, read_string_utf8, read_u16_le, read_u32_le, write_sir0_footer,
};
use pmd_flow::{Dictionary, FlowData, FlowDataError, FlowDataValue};

fn u32at(b: &[u8], p: usize) -> u32 {
    read_u32_le(b, p).unwrap()
}

fn u16at(b: &[u8], p: usize) -> u16 {
    read_u16_le(b, p).unwrap()
}

/// A small graph exercising every value kind: the mandatory first vector and
/// dictionary, a named dictionary holding references, and a second vector.
fn sample_graph() -> FlowData {
    let mut flow = FlowData::default();
    let mut v0 = Vec::new();
    v0.push(FlowDataValue::Str(String::from("")));
    flow.push_vector(v0).unwrap();
    let mut d0 = Dictionary::new();
    d0.insert(String::from("k"), FlowDataValue::Str(String::from("v")));
    flow.push_dictionary(d0).unwrap();
    let mut d1 = Dictionary::new();
    d1.insert(String::from("idname"), FlowDataValue::Str(String::from("hero")));
    d1.insert(String::from("hp"), FlowDataValue::Str(String::from("12")));
    d1.insert(String::from("ally"), FlowDataValue::RefDic(0));
    d1.insert(String::from("items"), FlowDataValue::RefVec(1));
    flow.push_dictionary(d1).unwrap();
    let mut v1 = Vec::new();
    v1.push(FlowDataValue::Str(String::from("h\u{e9}llo")));
    v1.push(FlowDataValue::RefDic(1));
    flow.push_vector(v1).unwrap();
    flow.unknown1 = 0xDEAD_BEEF;
    flow.unknown2 = 0x1234;
    flow
}

#[test]
fn footer_encodes_known_offsets() {
    let mut out = Vec::new();
    let offsets = vec![4u32, 8, 136];
    write_sir0_footer(&mut out, &offsets);
    assert_eq!(out, vec![0x04u8, 0x04, 0x81, 0x00]);
}

#[test]
fn footer_zero_delta() {
    let mut out = Vec::new();
    let offsets = vec![4u32, 4];
    write_sir0_footer(&mut out, &offsets);
    assert_eq!(out, vec![0x04u8, 0x00]);
}

#[test]
fn footer_decode_inverts_encode() {
    let decoded = read_sir0_footer(&[0x04u8, 0x04, 0x81, 0x00]).unwrap();
    assert_eq!(decoded, vec![4u32, 8, 136]);
    let with_zero = read_sir0_footer(&[0x04u8, 0x00]).unwrap();
    assert_eq!(with_zero, vec![4u32, 4]);
}

#[test]
fn footer_decode_truncated_fails() {
    assert!(matches!(read_sir0_footer(&[0x81u8]), Err(FlowDataError::IOError)));
}

#[test]
fn footer_decode_overflow_fails() {
    // six 7-bit groups stand for 42 bits: past the 32-bit offset range
    let bytes = [0xFFu8, 0xFF, 0xFF, 0xFF, 0xFF, 0x7F];
    assert!(matches!(read_sir0_footer(&bytes), Err(FlowDataError::TryFromIntError)));
}

#[test]
fn primitive_reads() {
    let data = [0x01u8, 0x02, 0x03, 0x04, 0x05];
    assert_eq!(read_u16_le(&data, 0).unwrap(), 0x0201);
    assert_eq!(read_u32_le(&data, 1).unwrap(), 0x05040302);
    assert!(matches!(read_u16_le(&data, 4), Err(FlowDataError::IOError)));
    assert!(matches!(read_u32_le(&data, 2), Err(FlowDataError::IOError)));
}

#[test]
fn string_reads() {
    let data = [b'h', b'i', 0, b'x'];
    assert_eq!(read_string_utf8(&data, 0).unwrap(), "hi");
    assert!(matches!(read_string_utf8(&data, 3), Err(FlowDataError::IOError)));
    let bad = [0xFFu8, 0x00];
    assert!(matches!(read_string_utf8(&bad, 0), Err(FlowDataError::InvalidUtf8)));
}

#[test]
fn round_trip_preserves_graph() {
    let flow = sample_graph();
    let bytes = flow.write().unwrap();
    let back = FlowData::new(&bytes).unwrap();
    assert_eq!(back.unknown1, 0xDEAD_BEEF);
    assert_eq!(back.unknown2, 0x1234);
    assert_eq!(back.dictionary_len(), 2);
    assert_eq!(back.vector_len(), 2);
    let d0 = back.get_dictionary(0).unwrap();
    assert_eq!(d0.len(), 1);
    assert_eq!(d0.get("k"), Some(&FlowDataValue::Str(String::from("v"))));
    let d1 = back.get_dictionary(1).unwrap();
    assert_eq!(d1.len(), 4);
    assert_eq!(d1.get("idname"), Some(&FlowDataValue::Str(String::from("hero"))));
    assert_eq!(d1.get("hp"), Some(&FlowDataValue::Str(String::from("12"))));
    assert_eq!(d1.get("ally"), Some(&FlowDataValue::RefDic(0)));
    assert_eq!(d1.get("items"), Some(&FlowDataValue::RefVec(1)));
    let v0 = back.get_vector(0).unwrap();
    assert_eq!(v0.as_slice(), &[FlowDataValue::Str(String::from(""))]);
    let v1 = back.get_vector(1).unwrap();
    assert_eq!(
        v1.as_slice(),
        &[FlowDataValue::Str(String::from("h\u{e9}llo")), FlowDataValue::RefDic(1)]
    );
}

#[test]
fn round_trip_twice_is_byte_stable() {
    let flow = sample_graph();
    let bytes = flow.write().unwrap();
    let back = FlowData::new(&bytes).unwrap();
    let bytes2 = back.write().unwrap();
    assert_eq!(bytes, bytes2);
}

#[test]
fn header_layout() {
    let flow = sample_graph();
    let bytes = flow.write().unwrap();
    assert_eq!(&bytes[0..4], b"SIR0");
    assert_eq!(u32at(&bytes, 4), 16);
    assert_eq!(u32at(&bytes, 16), 0xDEAD_BEEF);
    assert_eq!(u32at(&bytes, 24), 2); // dictionaries
    assert_eq!(u32at(&bytes, 28), 52); // dictionary metadata
    assert_eq!(u32at(&bytes, 32), 2); // vectors
    let ai = u32at(&bytes, 20) as usize;
    assert_eq!(u16at(&bytes, ai), 0x1234);
    assert_eq!(u16at(&bytes, ai + 2), 1); // vector count minus one
    // the footer the external writer produced: deltas of the eight fixed
    // header slots 4, 8, 20, 28, 36, 40, 44, 48
    let footer = u32at(&bytes, 8) as usize;
    assert_eq!(&bytes[footer..footer + 8], &[4u8, 4, 12, 8, 8, 4, 4, 4]);
}

#[test]
fn deduplication_of_shared_entries() {
    let mut flow = FlowData::default();
    let mut v0 = Vec::new();
    v0.push(FlowDataValue::Str(String::from("")));
    flow.push_vector(v0).unwrap();
    let mut d0 = Dictionary::new();
    d0.insert(String::from("k"), FlowDataValue::Str(String::from("v")));
    flow.push_dictionary(d0).unwrap();
    for _ in 0..2 {
        let mut d = Dictionary::new();
        d.insert(String::from("a"), FlowDataValue::Str(String::from("x")));
        d.insert(String::from("b"), FlowDataValue::Str(String::from("y")));
        flow.push_dictionary(d).unwrap();
    }
    let (st, vt, kt) = flow.build_tables();
    assert_eq!(st.len(), 7); // k v a x b y ""
    assert_eq!(vt.len(), 4); // v x y ""
    assert_eq!(kt.len(), 3); // (k,v) (a,x) (b,y)
    // the identical dictionaries decode back with the same content
    let bytes = flow.write().unwrap();
    let back = FlowData::new(&bytes).unwrap();
    let keyval_count = (u32at(&bytes, 20) - u32at(&bytes, 48)) / 4;
    assert_eq!(keyval_count, 3);
    for dicid in [1usize, 2] {
        let d = back.get_dictionary(dicid).unwrap();
        assert_eq!(d.get("a"), Some(&FlowDataValue::Str(String::from("x"))));
        assert_eq!(d.get("b"), Some(&FlowDataValue::Str(String::from("y"))));
    }
}

#[test]
fn keyval_out_of_range_reports_id_and_bound() {
    let flow = sample_graph();
    let mut bytes = flow.write().unwrap();
    let ai = u32at(&bytes, 20) as usize;
    let keyval_len = (u32at(&bytes, 20) - u32at(&bytes, 48)) / 4;
    // dictionary 0's single entry lives inline at ai + 4
    bytes[ai + 4] = 0xFF;
    bytes[ai + 5] = 0xFF;
    let err = FlowData::new(&bytes).unwrap_err();
    assert!(matches!(err, FlowDataError::KeyValTooBig(0xFFFF, b) if b == keyval_len));
}

#[test]
fn string_reference_out_of_range_reports_id_and_bound() {
    let flow = sample_graph();
    let mut bytes = flow.write().unwrap();
    let kv_off = u32at(&bytes, 48) as usize;
    // the string-pointer table ends where dictionary 1's entry list begins
    let strptr_len = (u32at(&bytes, 64) - u32at(&bytes, 40)) / 4;
    // keyval record 0's key id
    bytes[kv_off] = 0xFF;
    bytes[kv_off + 1] = 0xFF;
    let err = FlowData::new(&bytes).unwrap_err();
    assert!(matches!(err, FlowDataError::StringReferenceTooBig(0xFFFF, b) if b == strptr_len));
}

#[test]
fn string_reference_bound_is_tight() {
    let flow = sample_graph();
    let mut bytes = flow.write().unwrap();
    let kv_off = u32at(&bytes, 48) as usize;
    let strptr_len = (u32at(&bytes, 64) - u32at(&bytes, 40)) / 4;
    // an id equal to the table's slot count points past its end
    let id = strptr_len as u16;
    bytes[kv_off] = (id % 0x100) as u8;
    bytes[kv_off + 1] = (id / 0x100) as u8;
    let err = FlowData::new(&bytes).unwrap_err();
    assert!(matches!(err, FlowDataError::StringReferenceTooBig(i, b) if i == id && b == strptr_len));
}

#[test]
fn dic_reference_out_of_range_reports_id_and_bound() {
    let flow = sample_graph();
    let mut bytes = flow.write().unwrap();
    let val_off = u32at(&bytes, 44) as usize;
    let val_count = ((u32at(&bytes, 48) - u32at(&bytes, 44)) / 4) as usize;
    // find the tagged record holding the dictionary reference
    let mut patched = false;
    for k in 0..val_count {
        if u16at(&bytes, val_off + 4 * k) == 1 {
            bytes[val_off + 4 * k + 2] = 0xFF;
            bytes[val_off + 4 * k + 3] = 0xFF;
            patched = true;
            break;
        }
    }
    assert!(patched);
    let err = FlowData::new(&bytes).unwrap_err();
    assert!(matches!(err, FlowDataError::DicReferenceTooBig(0xFFFF, 2)));
}

#[test]
fn vec_reference_out_of_range_reports_id_and_bound() {
    let flow = sample_graph();
    let mut bytes = flow.write().unwrap();
    let val_off = u32at(&bytes, 44) as usize;
    let val_count = ((u32at(&bytes, 48) - u32at(&bytes, 44)) / 4) as usize;
    let mut patched = false;
    for k in 0..val_count {
        if u16at(&bytes, val_off + 4 * k) == 2 {
            bytes[val_off + 4 * k + 2] = 0xFF;
            bytes[val_off + 4 * k + 3] = 0xFF;
            patched = true;
            break;
        }
    }
    assert!(patched);
    let err = FlowData::new(&bytes).unwrap_err();
    assert!(matches!(err, FlowDataError::VecReferenceTooBig(0xFFFF, 2)));
}

#[test]
fn vector_element_id_at_bound_is_rejected() {
    let flow = sample_graph();
    let mut bytes = flow.write().unwrap();
    let val_len = (u32at(&bytes, 48) - u32at(&bytes, 44)) / 4;
    // vector 1's entry list, from its metadata record
    let vptr = u32at(&bytes, 52 + 8 * 2 + 8 + 4) as usize;
    let id = val_len as u16;
    bytes[vptr] = (id % 0x100) as u8;
    bytes[vptr + 1] = (id / 0x100) as u8;
    let err = FlowData::new(&bytes).unwrap_err();
    assert!(matches!(err, FlowDataError::ValTooBig(i, b) if i == id && b == val_len));
}

#[test]
fn oversized_inline_lists_are_refused() {
    let mut flow = FlowData::default();
    let mut v0 = Vec::new();
    v0.push(FlowDataValue::Str(String::from("")));
    flow.push_vector(v0).unwrap();
    let mut d0 = Dictionary::new();
    for k in 0..5u32 {
        d0.insert(format!("k{}", k), FlowDataValue::Str(String::from("v")));
    }
    flow.push_dictionary(d0).unwrap();
    // five entries and one element need ten inline bytes; only eight exist
    let err = flow.write().unwrap_err();
    assert!(matches!(err, FlowDataError::TryFromIntError));
}

#[test]
fn vector_ref_inside_vector_is_rejected() {
    let mut flow = FlowData::default();
    let mut v0 = Vec::new();
    v0.push(FlowDataValue::Str(String::from("")));
    flow.push_vector(v0).unwrap();
    let d0 = Dictionary::new();
    flow.push_dictionary(d0).unwrap();
    let mut v1 = Vec::new();
    v1.push(FlowDataValue::RefVec(0));
    flow.push_vector(v1).unwrap();
    let bytes = flow.write().unwrap();
    let err = FlowData::new(&bytes).unwrap_err();
    assert!(matches!(err, FlowDataError::UnrecognizedTypeForVec(2)));
}

#[test]
fn non_monotonic_dictionary_pointers_are_rejected() {
    let mut flow = sample_graph();
    let mut d2 = Dictionary::new();
    d2.insert(String::from("z"), FlowDataValue::Str(String::from("w")));
    flow.push_dictionary(d2).unwrap();
    let mut bytes = flow.write().unwrap();
    let dic1_ptr = u32at(&bytes, 64);
    // dictionary 2's pointer slot sits at 52 + 16 + 4; zero it out
    for t in 0..4 {
        bytes[72 + t] = 0;
    }
    let err = FlowData::new(&bytes).unwrap_err();
    assert!(matches!(err, FlowDataError::NonMonotonicPointer(p, 0) if p == dic1_ptr));
}

#[test]
fn decode_of_short_input_fails() {
    assert!(matches!(FlowData::new(&[0u8; 8]), Err(FlowDataError::IOError)));
    assert!(matches!(FlowData::new(&[]), Err(FlowDataError::IOError)));
}

#[test]
fn padding_reaches_the_next_boundary() {
    let mut buf = vec![1u8, 2, 3];
    add_padding(&mut buf, 16);
    assert_eq!(buf.len(), 16);
    assert_eq!(&buf[0..3], &[1, 2, 3]);
    assert!(buf[3..].iter().all(|b| *b == 0));
    add_padding(&mut buf, 16);
    assert_eq!(buf.len(), 16);
}
