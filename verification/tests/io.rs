use arbitrary::Arbitrary;
use rand::{Rng, SeedableRng};
use runa::io::bin::{deserialize_fd, Bin, DeserializeBytes};
use runa::io::buf::{BufReaderWithFd, FillStep};
use runa::io::utils::{ReadPool, WritePool};
use runa::io::{distribute_fds, UnexpectedEof};
use runa::wire::endian::Endian;

/// Fills the reader from what is left of the stream, a few bytes at a time.
fn fill_buf_until(rx: &mut BufReaderWithFd<()>, len: usize, stream: &mut ReadPool) -> Result<(), UnexpectedEof> {
    rx.start_fill(len);
    loop {
        match rx.next_step(len) {
            FillStep::Done => return Ok(()),
            FillStep::Read => {
                let spare = rx.spare_mut();
                let bytes = stream.read(spare.len().min(100));
                spare[..bytes.len()].copy_from_slice(&bytes);
                let mut fds = vec![];
                while !stream.fds.is_empty() {
                    fds.push(stream.next_fd().unwrap());
                }
                rx.advance(bytes.len(), &fds)?;
            },
        }
    }
}

#[test]
fn buf_roundtrip() {
    let mut rng = rand::rngs::SmallRng::seed_from_u64(0x1238_aefb_d129_3a12);
    let mut raw: Vec<u8> = Vec::with_capacity(1024 * 1024);
    raw.resize(1024 * 1024, 0);
    rng.fill(raw.as_mut_slice());
    let mut source = arbitrary::Unstructured::new(&raw);

    let mut tx = WritePool::new();
    let mut sent_bytes = Vec::new();
    let mut sent_fds = Vec::new();
    while let Ok(packet) = <&[u8]>::arbitrary(&mut source) {
        if packet.is_empty() {
            break;
        }
        let has_fd = bool::arbitrary(&mut source).unwrap();
        let len = (packet.len() as u32 + 4).to_ne_bytes();
        tx.write(&len);
        if has_fd {
            sent_fds.push(3);
            tx.write_with_fds(packet, &[3]);
        } else {
            tx.write(packet);
        }
        sent_bytes.extend_from_slice(packet);
    }
    let (data, fds) = tx.into_inner();
    let mut stream = ReadPool::new(data, fds);

    let mut rx = BufReaderWithFd::new(());
    let mut bytes = Vec::new();
    let mut fds = Vec::new();
    loop {
        if fill_buf_until(&mut rx, 4, &mut stream).is_err() {
            break;
        }
        let buf = rx.buffer();
        assert!(buf.len() >= 4);
        let len = Endian::native().get_u32(&buf[..4]) as usize;
        fill_buf_until(&mut rx, len, &mut stream).unwrap();
        bytes.extend_from_slice(&rx.buffer()[4..len]);
        fds.extend_from_slice(rx.fds());
        let nfds = rx.fds().len();
        rx.consume(len, nfds);
    }
    assert_eq!(bytes, sent_bytes);
    assert_eq!(fds.len(), sent_fds.len());
}

#[test]
fn buffer_grows_and_shrinks() {
    let mut rx = BufReaderWithFd::with_capacity((), 8, 2);
    let mut stream = ReadPool::new((0..200).collect(), vec![5]);
    fill_buf_until(&mut rx, 150, &mut stream).unwrap();
    assert!(rx.buffer().len() >= 150);
    assert_eq!(&rx.buffer()[..3], &[0, 1, 2]);
    assert_eq!(rx.fds(), &[5]);
    rx.consume(150, 1);
    assert!(rx.fds().is_empty());
    let left = rx.buffer().len();
    let (data, fds) = rx.read_with_fds(4, 4);
    assert_eq!(data.len(), left.min(4));
    assert!(fds.is_empty());
    rx.shrink();
}

#[test]
fn filling_makes_room_first() {
    let mut rx = BufReaderWithFd::with_capacity((), 8, 2);
    let mut stream = ReadPool::new((0..20).collect(), vec![]);
    fill_buf_until(&mut rx, 20, &mut stream).unwrap();
    rx.consume(12, 0);
    rx.start_fill(8);
    assert_eq!((rx.pos_data, rx.filled_data, rx.buf.len()), (12, 20, 20));
    rx.start_fill(9);
    assert_eq!((rx.pos_data, rx.filled_data, rx.buf.len()), (0, 8, 8));
    assert_eq!(rx.buffer(), &[12, 13, 14, 15, 16, 17, 18, 19]);
    rx.consume(8, 0);
    rx.start_fill(0);
    assert_eq!((rx.pos_data, rx.filled_data, rx.buf.len()), (0, 0, 8));
}

#[test]
fn stream_can_end_early() {
    let mut rx = BufReaderWithFd::new(());
    let mut stream = ReadPool::new(vec![1, 2], vec![]);
    assert_eq!(fill_buf_until(&mut rx, 4, &mut stream), Err(UnexpectedEof));
    assert_eq!(rx.buffer(), &[1, 2]);
}

#[test]
fn pools_hand_back_what_was_written() {
    let mut tx = WritePool::new();
    assert_eq!(tx.write(&[1, 2, 3]), 3);
    assert_eq!(tx.write_with_fds(&[4], &[10, 11]), 1);
    let (data, fds) = tx.into_inner();
    assert_eq!(data, vec![1, 2, 3, 4]);
    assert_eq!(fds, vec![10, 11]);
    let mut rx = ReadPool::new(data, fds);
    assert_eq!(rx.fill_buf_until(5), Err(UnexpectedEof));
    assert_eq!(rx.read_with_fds(2, Some(1)), (vec![1, 2], vec![10]));
    assert_eq!(rx.buffer(), &[3, 4]);
    assert_eq!(rx.read_with_fds(9, None), (vec![3, 4], vec![11]));
    assert!(rx.is_eof());
}

#[test]
fn surplus_fds_are_separated() {
    let (kept, extra) = distribute_fds(&vec![1, 2, 3], 2);
    assert_eq!(kept, vec![1, 2]);
    assert_eq!(extra, vec![3]);
    let (kept, extra) = distribute_fds(&vec![1], 2);
    assert_eq!(kept, vec![1]);
    assert!(extra.is_empty());
}

#[test]
fn numbers_and_bytes_come_in_pieces() {
    let mut bin = Bin::new((), 16);
    let mut number = bin.deserialize_u32();
    bin.buf[..2].copy_from_slice(&[1, 2]);
    number.inner.advance(2).unwrap();
    assert!(!number.inner.is_complete());
    assert_eq!(number.finish(&bin, Endian::Little), None);
    bin.buf[2..4].copy_from_slice(&[3, 4]);
    number.inner.advance(2).unwrap();
    assert_eq!(number.finish(&bin, Endian::Little), Some(0x0403_0201));

    let mut number = bin.deserialize_i32();
    bin.buf[..4].copy_from_slice(&[0xff, 0xff, 0xff, 0xff]);
    number.inner.advance(4).unwrap();
    assert_eq!(number.finish(&bin, Endian::Little), Some(-1));

    let mut bytes = bin.deserialize_bytes();
    bin.buf[..4].copy_from_slice(&[18, 0, 0, 0]);
    if let DeserializeBytes::ReadLen { inner } = &mut bytes {
        inner.inner.advance(4).unwrap();
    }
    bytes.proceed(&mut bin, Endian::Little);
    match &mut bytes {
        DeserializeBytes::ReadBytes { len: 18, fill } => {
            // Aligned, and more than the buffer had room for.
            assert_eq!((fill.len, fill.offset), (20, 0));
            assert_eq!(bin.buf.len(), 20);
            assert_eq!(bin.buf[..4], [18, 0, 0, 0]);
            fill.advance(20).unwrap();
        },
        other => panic!("{:?}", other),
    }
    bytes.proceed(&mut bin, Endian::Little);
    assert_eq!(bytes.finish(&bin).unwrap().len(), 18);
    assert_eq!(bytes, DeserializeBytes::Invalid);
    // What is not needed any more is given back.
    let mut number = bin.deserialize_u32();
    assert_eq!(bin.buf.len(), 16);
    assert_eq!(number.inner.advance(0), Err(UnexpectedEof));
    assert_eq!(deserialize_fd(Some(4)), Ok(4));
    assert_eq!(deserialize_fd(None), Err(UnexpectedEof));
}
