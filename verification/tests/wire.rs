use runa::io::de::Deserializer;
use runa::io::utils::{ReadPool, WritePool};
use runa::spec_parser::protocol::Type;
use runa::wire::endian::{to_signed, to_unsigned, Endian};
use runa::wire::message::{
    deserialize, deserialize_message, has_args, len, nfds, serialize, serialize_value, Check, DeError, Value, WireArg,
};
use runa::wire::pop::{align, pop_bytes, pop_fd, pop_i32, pop_u32};

fn arg(name: &str, typ: Type) -> WireArg {
    WireArg { name: name.to_string(), typ, check: Check::Any }
}

fn wl_display_requests() -> Vec<Vec<WireArg>> {
    vec![vec![arg("callback", Type::NewId)], vec![arg("registry", Type::NewId)]]
}

fn wl_display_events() -> Vec<Vec<WireArg>> {
    vec![
        vec![arg("object_id", Type::Object), arg("code", Type::Uint), arg("message", Type::String)],
        vec![arg("id", Type::Uint)],
    ]
}

#[test]
fn test_serialize_deserialize_wl_display() {
    let mut pool = WritePool::new();
    pool.write(&[0, 0, 0, 0]);
    let (mut buf, mut fds) = pool.into_inner();
    serialize(Endian::native(), 0, &vec![Value::NewId(100)], &mut buf, &mut fds);
    assert_eq!(buf.len(), 12);
    let mut de = Deserializer::new(&buf, &fds);
    let (opcode, values) = de.deserialize(Endian::native(), &wl_display_requests()).expect("Failed to deserialize");
    assert_eq!(opcode, 0);
    assert!(matches!(values.as_slice(), [Value::NewId(100)]));
    assert_eq!(de.consumed(), (12, 0));
}

#[test]
fn test_roundtrip() {
    let mut tx = WritePool::new();
    // Put an object id
    tx.write(&[0, 0, 0, 0]);
    let (mut buf, mut fds) = tx.into_inner();
    let item = vec![Value::Object(1), Value::Uint(2), Value::String(b"test".to_vec())];
    serialize(Endian::native(), 0, &item, &mut buf, &mut fds);

    let mut rx = ReadPool::new(buf, fds);
    assert_eq!(rx.fill_buf_until(8), Ok(()));
    assert_eq!(Endian::native().get_u32(&rx.buffer()[..4]), 0);
    let len = (Endian::native().get_u32(&rx.buffer()[4..8]) >> 16) as usize;
    assert_eq!(rx.fill_buf_until(len), Ok(()));
    let mut de = Deserializer::new(rx.buffer(), &rx.fds);
    let (opcode, values) = de.deserialize(Endian::native(), &wl_display_events()).unwrap();
    let (bytes_read, fds_read) = de.consumed();
    println!("{:#?}", values);
    assert_eq!(opcode, 0);
    match values.as_slice() {
        [Value::Object(1), Value::Uint(2), Value::String(message)] => assert_eq!(message.as_slice(), b"test"),
        other => panic!("{:?}", other),
    }
    rx.consume(bytes_read, fds_read);
    assert!(rx.is_eof());
}

#[test]
fn test_roundtrip_with_fd() {
    let create_pool = vec![vec![arg("id", Type::NewId), arg("fd", Type::Fd), arg("size", Type::Int)]];
    let mut tx = WritePool::new();
    tx.write(&[0, 0, 0, 0]);
    let (mut buf, mut fds) = tx.into_inner();
    let item = vec![Value::NewId(1), Value::Fd(7), Value::Int(100)];
    assert_eq!(nfds(&item), 1);
    serialize(Endian::native(), 0, &item, &mut buf, &mut fds);
    println!("{:x?}", buf);
    assert_eq!(fds, vec![7]);

    let mut rx = ReadPool::new(buf, fds);
    assert_eq!(Endian::native().get_u32(&rx.buffer()[..4]), 0);
    let mut de = Deserializer::new(rx.buffer(), &rx.fds);
    let (opcode, item) = de.deserialize(Endian::native(), &create_pool).unwrap();
    let (bytes_read, fds_read) = de.consumed();
    println!("{:#?}", item);
    rx.consume(bytes_read, fds_read);

    // Compare the result skipping the file descriptor
    assert_eq!(opcode, 0);
    match item.as_slice() {
        [Value::NewId(id), Value::Fd(fd), Value::Int(size)] => {
            assert!(*fd >= 0); // make sure fd is valid
            assert_eq!(*id, 1);
            assert_eq!(*size, 100);
        },
        other => panic!("{:?}", other),
    }
    assert!(rx.is_eof());
}

#[test]
fn test_serialize() {
    let item = vec![Value::Object(1), Value::Uint(2), Value::String(b"test".to_vec())];
    let mut buf = vec![];
    let mut fds = vec![];
    serialize(Endian::Little, 0, &item, &mut buf, &mut fds);
    println!("{:x?}", buf);
    let expected: Vec<u8> = vec![
        0, 0, 28, 0, // header
        1, 0, 0, 0, // object_id
        2, 0, 0, 0, // code
        5, 0, 0, 0, b't', b'e', b's', b't', 0, 0, 0, 0, // message
    ];
    assert_eq!(buf, expected);
    assert!(fds.is_empty());
    assert_eq!(len(&item), 28);

    // The object id comes before the message.
    let mut message = vec![0, 0, 0, 0];
    message.extend(buf);
    let rx = ReadPool::new(message, fds);
    let mut de = Deserializer::new(rx.buffer(), &rx.fds);
    let (opcode, item) = de.deserialize(Endian::Little, &wl_display_events()).unwrap();
    println!("{:?}", item);
    assert_eq!(opcode, 0);
    match item.as_slice() {
        [Value::Object(1), Value::Uint(2), Value::String(message)] => assert_eq!(message.as_slice(), b"test"),
        other => panic!("{:?}", other),
    }
    assert_eq!(de.consumed(), (28, 0));
}

#[test]
fn big_endian_numbers() {
    let mut buf = vec![];
    Endian::Big.put_u32(&mut buf, 0x0102_0304);
    assert_eq!(buf, vec![1, 2, 3, 4]);
    assert_eq!(Endian::Big.get_u32(&buf), 0x0102_0304);
    assert_eq!(Endian::Little.get_u32(&buf), 0x0403_0201);
    let mut native = vec![];
    Endian::native().put_u32(&mut native, 0xdead_beef);
    assert_eq!(native, 0xdead_beef_u32.to_ne_bytes().to_vec());
    assert_eq!(Endian::of_sample(1), Endian::Little);
    assert_eq!(Endian::of_sample(0x0100_0000), Endian::Big);
    assert_eq!(Endian::native(), Endian::of_sample(u32::from_ne_bytes([1, 0, 0, 0])));
}

#[test]
fn signs_keep_bits() {
    assert_eq!(to_signed(0xffff_ffff), -1);
    assert_eq!(to_signed(0x8000_0000), i32::MIN);
    assert_eq!(to_unsigned(-1), 0xffff_ffff);
    assert_eq!(to_unsigned(i32::MIN), 0x8000_0000);
    assert_eq!(to_unsigned(to_signed(77) ), 77);
}

#[test]
fn lengths_are_aligned() {
    assert_eq!(align(0), 0);
    assert_eq!(align(1), 4);
    assert_eq!(align(4), 4);
    assert_eq!(align(5), 8);
    let data = [1u8, 2, 3, 4, 5, 6, 7, 8];
    let mut rest: &[u8] = &data;
    assert_eq!(pop_bytes(&mut rest, 3), &[1, 2, 3]);
    assert_eq!(rest, &[5, 6, 7, 8]);
    assert_eq!(pop_u32(Endian::Little, &mut rest), 0x0807_0605);
    assert!(rest.is_empty());
    let minus = [0xfe, 0xff, 0xff, 0xff];
    let mut rest: &[u8] = &minus;
    assert_eq!(pop_i32(Endian::Little, &mut rest), -2);
    let numbers = [3, 4];
    let mut fds: &[i32] = &numbers;
    assert_eq!(pop_fd(&mut fds), 3);
    assert_eq!(fds, &[4]);
}

#[test]
fn arrays_are_padded() {
    let mut buf = vec![];
    let mut fds = vec![];
    serialize_value(Endian::Little, &Value::Array(vec![9, 8, 7, 6, 5]), &mut buf, &mut fds);
    assert_eq!(buf, vec![5, 0, 0, 0, 9, 8, 7, 6, 5, 0, 0, 0]);
    let args = vec![arg("a", Type::Array)];
    assert!(has_args(Endian::Little, &args, &buf, &fds));
    let values = deserialize(Endian::Little, &args, &buf, &fds).unwrap();
    assert!(matches!(values.as_slice(), [Value::Array(a)] if a.as_slice() == [9, 8, 7, 6, 5]));
    assert!(!has_args(Endian::Little, &args, &buf[..8], &fds));
}

#[test]
fn each_way_to_misread_a_message() {
    let e = Endian::Little;
    let checked = |typ, check| vec![WireArg { name: "x".to_string(), typ, check }];
    assert!(matches!(
        deserialize(e, &checked(Type::Int, Check::OneOf(vec![1, 2])), &[0xff, 0xff, 0xff, 0xff], &[]),
        Err(DeError::InvalidIntEnum(-1, name)) if name == "x"
    ));
    assert!(matches!(
        deserialize(e, &checked(Type::Uint, Check::Flags(5)), &[2, 0, 0, 0], &[]),
        Err(DeError::InvalidUintEnum(2, name)) if name == "x"
    ));
    assert!(deserialize(e, &checked(Type::Uint, Check::Flags(5)), &[4, 0, 0, 0], &[]).is_ok());
    assert!(matches!(
        deserialize(e, &checked(Type::String, Check::Any), &[2, 0, 0, 0, b'a', b'b', 0, 0], &[]),
        Err(DeError::MissingNul(name)) if name == "x"
    ));
    assert!(matches!(
        deserialize_message(e, &wl_display_requests(), &[1, 0, 0, 0, 9, 0, 8, 0], &[]),
        Err(DeError::UnknownOpcode(9))
    ));
}

#[test]
fn a_deserializer_stops_where_it_has_read() {
    let e = Endian::Little;
    // A message follows another one.
    let bytes = [1, 0, 0, 0, 0, 0, 12, 0, 7, 0, 0, 0, 1, 0, 0, 0, 1, 0, 12, 0, 8, 0, 0, 0];
    let mut de = Deserializer::new(&bytes, &[]);
    assert!(matches!(de.deserialize(e, &wl_display_requests()), Ok((0, _))));
    assert_eq!(de.consumed(), (12, 0));
    match de.deserialize(e, &wl_display_requests()).unwrap() {
        (1, values) => assert!(matches!(values.as_slice(), [Value::NewId(8)])),
        other => panic!("{:?}", other),
    }
    assert_eq!(de.consumed(), (24, 0));
    // An unknown opcode: only the header was read.
    let mut de = Deserializer::new(&[1, 0, 0, 0, 9, 0, 8, 0], &[]);
    assert!(matches!(de.deserialize(e, &wl_display_requests()), Err(DeError::UnknownOpcode(9))));
    assert_eq!(de.consumed(), (8, 0));
    // The bytes that align the last argument are counted, but may be missing.
    let array = vec![vec![arg("data", Type::Array), arg("fd", Type::Fd)]];
    let mut de = Deserializer::new(&[1, 0, 0, 0, 0, 0, 13, 0, 1, 0, 0, 0, 5], &[3]);
    match de.deserialize(e, &array).unwrap() {
        (0, values) => match values.as_slice() {
            [Value::Array(data), Value::Fd(3)] => assert_eq!(data.as_slice(), &[5]),
            other => panic!("{:?}", other),
        },
        other => panic!("{:?}", other),
    }
    assert_eq!(de.consumed(), (16, 1));
    // An argument that cannot be read is counted.
    let text = vec![vec![arg("text", Type::String), arg("fd", Type::Fd)]];
    let mut de = Deserializer::new(&[1, 0, 0, 0, 0, 0, 16, 0, 1, 0, 0, 0, 5, 0, 0, 0], &[3]);
    assert!(matches!(de.deserialize(e, &text), Err(DeError::MissingNul(name)) if name == "text"));
    assert_eq!(de.consumed(), (16, 0));
}
