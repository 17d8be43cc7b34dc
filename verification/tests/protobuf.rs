//! The protobuf reader on small buffers.
use demoscope::protobuf::{Error, Field, Reader, Value};

fn tag(field: u32, wire: u8) -> u8 {
    ((field << 3) | wire as u32) as u8
}

#[test]
fn varint_single_and_multibyte() {
    let mut r = Reader::new(&[0x01]);
    assert_eq!(r.read_varint().unwrap(), 1);

    let mut r = Reader::new(&[0xAC, 0x02]);
    assert_eq!(r.read_varint().unwrap(), 300);

    let mut r = Reader::new(&[0xFF, 0xFF, 0xFF, 0xFF, 0xFF, 0xFF, 0xFF, 0xFF, 0xFF, 0x01]);
    assert_eq!(r.read_varint().unwrap(), u64::MAX);
}

#[test]
fn varint_truncated_and_overflow() {
    let mut r = Reader::new(&[0x80]);
    assert_eq!(r.read_varint(), Err(Error::Truncated));

    let mut r = Reader::new(&[0xFF; 11]);
    assert_eq!(r.read_varint(), Err(Error::VarintOverflow));
}

#[test]
fn field_varint() {
    let buf = [tag(1, 0), 0x96, 0x01];
    let mut r = Reader::new(&buf);
    let f = r.next_field().unwrap().unwrap();
    assert_eq!(f.number, 1);
    assert_eq!(f.value.as_u64(), Some(150));
    assert!(r.next_field().unwrap().is_none());
}

#[test]
fn field_length_delimited_string() {
    let mut buf = vec![tag(2, 2), 7];
    buf.extend_from_slice(b"testing");
    let mut r = Reader::new(&buf);
    let f = r.next_field().unwrap().unwrap();
    assert_eq!(f.number, 2);
    assert_eq!(f.value.as_str().unwrap(), "testing");
}

#[test]
fn field_fixed32_float_and_fixed64_double() {
    let mut buf = vec![tag(3, 5)];
    buf.extend_from_slice(&1.5f32.to_bits().to_le_bytes());
    buf.push(tag(4, 1));
    buf.extend_from_slice(&(-2.0f64).to_bits().to_le_bytes());
    let mut r = Reader::new(&buf);
    let f1 = r.next_field().unwrap().unwrap();
    assert_eq!(f1.value.as_f32().map(f32::from_bits), Some(1.5));
    let f2 = r.next_field().unwrap().unwrap();
    assert_eq!(f2.value.as_f64().map(f64::from_bits), Some(-2.0));
}

#[test]
fn zigzag_roundtrip() {
    let cases: &[(i32, u64)] = &[(0, 0), (-1, 1), (1, 2), (-2, 3), (2147483647, 4294967294)];
    for &(want, enc) in cases {
        assert_eq!(Value::Varint(enc).as_sint32(), Some(want));
    }
}

#[test]
fn nested_message_and_iteration() {
    let inner = [tag(1, 0), 42u8];
    let mut buf = vec![tag(1, 2), inner.len() as u8];
    buf.extend_from_slice(&inner);
    let r = Reader::new(&buf);
    let mut count = 0;
    for field in r.fields() {
        count += 1;
        let mut nested = field.value.as_message().unwrap();
        let inner_f = nested.next_field().unwrap().unwrap();
        assert_eq!(inner_f.value.as_u64(), Some(42));
    }
    assert_eq!(count, 1);
}

#[test]
fn unsupported_group_wire_type() {
    let buf = [tag(1, 3)];
    let mut r = Reader::new(&buf);
    assert_eq!(r.next_field(), Err(Error::UnsupportedWireType(3)));
}

#[test]
fn errors_have_messages() {
    assert_eq!(Error::Truncated.message(), "protobuf buffer truncated");
    assert_eq!(Error::VarintOverflow.message(), "protobuf varint exceeds 64 bits");
    assert_eq!(Error::UnsupportedWireType(3).message(), "unsupported protobuf wire type 3");
}

#[test]
fn ill_formed_text_is_replaced() {
    let buf = [tag(2, 2), 3, b'a', 0xff, b'b'];
    let mut r = Reader::new(&buf);
    let f = r.next_field().unwrap().unwrap();
    assert_eq!(f.value.as_str().unwrap(), "a\u{fffd}b");
}

#[test]
fn fields_stop_at_the_first_bad_one() {
    let buf = [tag(1, 0), 5, tag(2, 0), 6, tag(1, 4)];
    let fs = Reader::new(&buf).fields();
    assert_eq!(fs.len(), 2);
    assert_eq!(fs[1].value.as_u64(), Some(6));
}

fn put_varint(buf: &mut Vec<u8>, mut n: u64) {
    while n >= 0x80 {
        buf.push((n % 0x80) as u8 | 0x80);
        n /= 0x80;
    }
    buf.push(n as u8);
}

fn put_field(buf: &mut Vec<u8>, f: &Field) {
    let (wire, body) = match &f.value {
        Value::Varint(n) => {
            let mut b = Vec::new();
            put_varint(&mut b, *n);
            (0u64, b)
        }
        Value::Fixed64(n) => (1, n.to_le_bytes().to_vec()),
        Value::Len(s) => {
            let mut b = Vec::new();
            put_varint(&mut b, s.len() as u64);
            b.extend_from_slice(s);
            (2, b)
        }
        Value::Fixed32(n) => (5, n.to_le_bytes().to_vec()),
    };
    put_varint(buf, f.number as u64 * 8 + wire);
    buf.extend_from_slice(&body);
}

#[test]
fn sent_fields_are_read_back() {
    let text = [0x80u8; 300];
    let fs = [
        Field { number: 1, value: Value::Varint(u64::MAX) },
        Field { number: 0x1fff_ffff, value: Value::Len(&text) },
        Field { number: 2, value: Value::Fixed64(0x0123_4567_89ab_cdef) },
        Field { number: 2, value: Value::Fixed32(0xfedc_ba98) },
        Field { number: 3, value: Value::Len(&[]) },
        Field { number: 0, value: Value::Varint(0) },
    ];
    let mut buf = Vec::new();
    for f in &fs {
        put_field(&mut buf, f);
    }
    let mut r = Reader::new(&buf);
    for f in &fs {
        assert_eq!(r.next_field(), Ok(Some(f.clone())));
    }
    assert_eq!(r.next_field(), Ok(None));
    assert!(r.remaining().is_empty());
    assert_eq!(Reader::new(&buf).fields(), fs);
}

/// What ends the fields, their end or a broken one, leaves both readers at one place.
#[test]
fn next_is_next_field_without_its_error() {
    for buf in [&[][..], &[8, 5][..], &[8][..], &[8, 0x80][..], &[11, 1][..], &[18, 9, 1][..], &[13, 1, 2][..]] {
        let mut a = Reader::new(buf);
        let mut b = Reader::new(buf);
        let one = a.next();
        match b.next_field() {
            Ok(f) => assert_eq!(one, f),
            Err(_) => assert_eq!(one, None),
        }
        assert_eq!(a.remaining(), b.remaining());
    }
}
