use dnsafe::{
    BufferError, ByteSource, BytePacketBuffer, PacketBuffer, StreamPacketBuffer, VectorPacketBuffer,
};

struct Canned {
    bytes: Vec<u8>,
    given: usize,
}

impl ByteSource for Canned {
    fn next_byte(&mut self) -> Option<u8> {
        let b = self.bytes.get(self.given).copied();
        if b.is_some() {
            self.given += 1;
        }
        b
    }
}

#[test]
fn fixed_buffer_starts_zeroed() {
    let buffer = BytePacketBuffer::new();
    assert_eq!(buffer.pos(), 0);
    assert!(buffer.buf.iter().all(|b| *b == 0));
    let other = BytePacketBuffer::default();
    assert_eq!(other.pos, 0);
}

#[test]
fn fixed_buffer_reads_up_to_512() {
    let mut buffer = BytePacketBuffer::new();
    buffer.buf[511] = 7;
    buffer.seek(511).unwrap();
    assert_eq!(buffer.read(), Ok(7));
    assert_eq!(buffer.pos(), 512);
    assert_eq!(buffer.read(), Err(BufferError::EndOfBuffer));
    assert_eq!(buffer.pos(), 512);
    assert_eq!(buffer.get(511), Ok(7));
    assert_eq!(buffer.get(512), Err(BufferError::EndOfBuffer));
}

#[test]
fn fixed_buffer_writes_up_to_512() {
    let mut buffer = BytePacketBuffer::new();
    buffer.seek(510).unwrap();
    assert_eq!(buffer.write_u16(0xABCD), Ok(()));
    assert_eq!(buffer.buf[510], 0xAB);
    assert_eq!(buffer.buf[511], 0xCD);
    assert_eq!(buffer.write(1), Err(BufferError::EndOfBuffer));
    assert_eq!(buffer.set(512, 1), Err(BufferError::EndOfBuffer));
    assert_eq!(buffer.set(0, 9), Ok(()));
    assert_eq!(buffer.buf[0], 9);
    assert_eq!(buffer.pos(), 512);
}

#[test]
fn fixed_buffer_lends_ranges_within_capacity() {
    let mut buffer = BytePacketBuffer::new();
    buffer.buf[510] = 1;
    buffer.buf[511] = 2;
    assert_eq!(buffer.get_range(510, 2).unwrap(), &[1, 2]);
    assert_eq!(buffer.get_range(512, 0).unwrap(), &[] as &[u8]);
    assert_eq!(buffer.get_range(510, 3), Err(BufferError::EndOfBuffer));
    assert_eq!(buffer.get_range(usize::MAX, 2), Err(BufferError::EndOfBuffer));
    assert_eq!(buffer.pos(), 0);
}

#[test]
fn numbers_are_big_endian() {
    let mut buffer = VectorPacketBuffer::new();
    buffer.write_u16(0x1234).unwrap();
    buffer.write_u32(0xDEADBEEF).unwrap();
    buffer.write_u8(0x7F).unwrap();
    assert_eq!(buffer.buffer, vec![0x12, 0x34, 0xDE, 0xAD, 0xBE, 0xEF, 0x7F]);
    assert_eq!(buffer.pos(), 7);
    buffer.seek(0).unwrap();
    assert_eq!(buffer.read_u16(), Ok(0x1234));
    assert_eq!(buffer.read_u32(), Ok(0xDEADBEEF));
    assert_eq!(buffer.read(), Ok(0x7F));
    assert_eq!(buffer.read(), Err(BufferError::EndOfBuffer));
    assert_eq!(buffer.read_u16(), Err(BufferError::EndOfBuffer));
}

#[test]
fn set_u16_patches_in_place() {
    let mut buffer = VectorPacketBuffer::new();
    buffer.write_u32(0).unwrap();
    assert_eq!(buffer.set_u16(1, 0xBEEF), Ok(()));
    assert_eq!(buffer.buffer, vec![0, 0xBE, 0xEF, 0]);
    assert_eq!(buffer.pos(), 4);
    assert_eq!(buffer.set_u16(3, 1), Err(BufferError::EndOfBuffer));
    assert_eq!(buffer.set(4, 1), Err(BufferError::EndOfBuffer));
}

#[test]
fn growable_buffer_appends_whatever_the_cursor() {
    let mut buffer = VectorPacketBuffer::new();
    buffer.write(1).unwrap();
    buffer.seek(0).unwrap();
    buffer.write(2).unwrap();
    assert_eq!(buffer.buffer, vec![1, 2]);
    assert_eq!(buffer.pos(), 1);
    let other = VectorPacketBuffer::default();
    assert_eq!(other.buffer.len(), 0);
}

#[test]
fn growable_buffer_reads_only_what_it_holds() {
    let mut buffer = VectorPacketBuffer::new();
    buffer.write(5).unwrap();
    assert_eq!(buffer.get(0), Ok(5));
    assert_eq!(buffer.get(1), Err(BufferError::EndOfBuffer));
    assert_eq!(buffer.get_range(0, 1).unwrap(), &[5]);
    assert_eq!(buffer.get_range(0, 2), Err(BufferError::EndOfBuffer));
    assert_eq!(buffer.read(), Err(BufferError::EndOfBuffer));
}

#[test]
fn step_moves_the_cursor_or_fails() {
    let mut buffer = BytePacketBuffer::new();
    assert_eq!(buffer.step(10), Ok(()));
    assert_eq!(buffer.pos(), 10);
    assert_eq!(buffer.step(usize::MAX), Err(BufferError::EndOfBuffer));
    assert_eq!(buffer.pos(), 10);
    let mut buffer = VectorPacketBuffer::new();
    assert_eq!(buffer.step(3), Ok(()));
    assert_eq!(buffer.pos(), 3);
}

#[test]
fn saved_labels_are_found_again() {
    let mut buffer = VectorPacketBuffer::new();
    assert_eq!(buffer.find_label("a.b"), None);
    buffer.save_label("a.b", 12);
    buffer.save_label("b", 14);
    assert_eq!(buffer.find_label("a.b"), Some(12));
    assert_eq!(buffer.find_label("b"), Some(14));
    buffer.save_label("a.b", 40);
    assert_eq!(buffer.find_label("a.b"), Some(40));
    let mut fixed = BytePacketBuffer::new();
    fixed.save_label("a.b", 12);
    assert_eq!(fixed.find_label("a.b"), None);
}

#[test]
fn stream_buffer_pulls_only_what_is_asked_for() {
    let mut source = Canned { bytes: vec![10, 20, 30, 40, 50], given: 0 };
    {
        let mut buffer = StreamPacketBuffer::new(&mut source);
        assert_eq!(buffer.pos(), 0);
        assert_eq!(buffer.buffer.len(), 0);
        assert_eq!(buffer.read(), Ok(10));
        assert_eq!(buffer.buffer.len(), 1);
        assert_eq!(buffer.get(2), Ok(30));
        assert_eq!(buffer.buffer.len(), 3);
        assert_eq!(buffer.pos(), 1);
        assert_eq!(buffer.get(0), Ok(10));
        assert_eq!(buffer.buffer.len(), 3);
        assert_eq!(buffer.get_range(1, 3).unwrap(), &[20, 30, 40]);
        assert_eq!(buffer.buffer.len(), 4);
    }
    assert_eq!(source.given, 4);
}

#[test]
fn stream_buffer_fails_when_the_source_runs_dry() {
    let mut source = Canned { bytes: vec![1, 2], given: 0 };
    let mut buffer = StreamPacketBuffer::new(&mut source);
    assert_eq!(buffer.read_u16(), Ok(0x0102));
    assert_eq!(buffer.read(), Err(BufferError::EndOfBuffer));
    assert_eq!(buffer.get(5), Err(BufferError::EndOfBuffer));
    assert_eq!(buffer.get_range(0, 3), Err(BufferError::EndOfBuffer));
    assert_eq!(buffer.pos(), 2);
}

#[test]
fn stream_buffer_only_reads() {
    let mut source = Canned { bytes: vec![1, 2], given: 0 };
    let mut buffer = StreamPacketBuffer::new(&mut source);
    assert_eq!(buffer.write(1), Err(BufferError::ReadOnly));
    assert_eq!(buffer.set(0, 1), Err(BufferError::ReadOnly));
    assert_eq!(buffer.write_u16(1), Err(BufferError::ReadOnly));
    assert_eq!(buffer.write_qname("a.b"), Err(BufferError::ReadOnly));
    buffer.save_label("a", 0);
    assert_eq!(buffer.find_label("a"), None);
    assert_eq!(buffer.buffer.len(), 0);
}

#[test]
fn stream_buffer_reads_names_with_pointers() {
    let mut bytes = vec![1u8, b'A', 3, b'c', b'o', b'm', 0];
    bytes.extend_from_slice(&[1, b'b', 0xC0, 0x02, 0xEE]);
    let mut source = Canned { bytes, given: 0 };
    let mut buffer = StreamPacketBuffer::new(&mut source);
    let mut first = String::new();
    buffer.read_qname(&mut first).unwrap();
    assert_eq!(first, "a.com");
    assert_eq!(buffer.pos(), 7);
    let mut second = String::new();
    buffer.read_qname(&mut second).unwrap();
    assert_eq!(second, "b.com");
    assert_eq!(buffer.pos(), 11);
    assert_eq!(buffer.buffer.len(), 11);
}
