use dnsafe::{BufferError, BytePacketBuffer, PacketBuffer, VectorPacketBuffer};

#[test]
fn test_qname() {
    let mut buffer = VectorPacketBuffer::new();

    let instr1 = "a.google.com".to_string();
    let instr2 = "b.google.com".to_string();

    // First write the standard string
    match buffer.write_qname(&instr1) {
        Ok(_) => {}
        Err(_) => panic!(),
    }

    // Then we set up a slight variation with relies on a jump back to the data of
    // the first name
    let crafted_data = [0x01, b'b' as u8, 0xC0, 0x02];
    for b in &crafted_data {
        match buffer.write_u8(*b) {
            Ok(_) => {}
            Err(_) => panic!(),
        }
    }

    // Reset the buffer position for reading
    buffer.pos = 0;

    // Read the standard name
    let mut outstr1 = String::new();
    match buffer.read_qname(&mut outstr1) {
        Ok(_) => {}
        Err(_) => panic!(),
    }

    assert_eq!(instr1, outstr1);

    // Read the name with a jump
    let mut outstr2 = String::new();
    match buffer.read_qname(&mut outstr2) {
        Ok(_) => {}
        Err(_) => panic!(),
    }

    assert_eq!(instr2, outstr2);

    // Make sure we're now at the end of the buffer
    assert_eq!(buffer.pos, buffer.buffer.len());
}

#[test]
fn test_write_qname() {
    let mut buffer = VectorPacketBuffer::new();

    match buffer.write_qname(&"ns1.google.com".to_string()) {
        Ok(_) => {}
        Err(_) => panic!(),
    }
    match buffer.write_qname(&"ns2.google.com".to_string()) {
        Ok(_) => {}
        Err(_) => panic!(),
    }

    assert_eq!(22, buffer.pos());

    match buffer.seek(0) {
        Ok(_) => {}
        Err(_) => panic!(),
    }

    let mut str1 = String::new();
    match buffer.read_qname(&mut str1) {
        Ok(_) => {}
        Err(_) => panic!(),
    }

    assert_eq!("ns1.google.com", str1);

    let mut str2 = String::new();
    match buffer.read_qname(&mut str2) {
        Ok(_) => {}
        Err(_) => panic!(),
    }

    assert_eq!("ns2.google.com", str2);
}

#[test]
fn written_name_is_length_prefixed_labels() {
    let mut buffer = VectorPacketBuffer::new();
    buffer.write_qname("www.Example.com").unwrap();
    let mut expected = vec![3u8];
    expected.extend_from_slice(b"www");
    expected.push(7);
    expected.extend_from_slice(b"Example");
    expected.push(3);
    expected.extend_from_slice(b"com");
    expected.push(0);
    assert_eq!(buffer.buffer, expected);
    assert_eq!(buffer.pos(), 17);
}

#[test]
fn second_name_points_at_shared_suffix() {
    let mut buffer = VectorPacketBuffer::new();
    buffer.write_qname("ns1.google.com").unwrap();
    assert_eq!(buffer.pos(), 16);
    buffer.write_qname("ns2.google.com").unwrap();
    // one label of three bytes behind its length, then a pointer to offset 4
    assert_eq!(&buffer.buffer[16..], &[3, b'n', b's', b'2', 0xC0, 0x04]);
    assert_eq!(buffer.find_label("google.com"), Some(4));
    assert_eq!(buffer.find_label("com"), Some(11));
    assert_eq!(buffer.find_label("ns2.google.com"), Some(16));
    assert_eq!(buffer.find_label("org"), None);
}

#[test]
fn whole_name_seen_before_is_two_bytes() {
    let mut buffer = VectorPacketBuffer::new();
    buffer.write_qname("example.org").unwrap();
    let before = buffer.pos();
    buffer.write_qname("example.org").unwrap();
    assert_eq!(buffer.pos() - before, 2);
    assert_eq!(&buffer.buffer[before..], &[0xC0, 0x00]);
}

#[test]
fn read_lowercases_ascii() {
    let mut buffer = VectorPacketBuffer::new();
    buffer.write_qname("WwW.ExAmPlE.CoM").unwrap();
    buffer.seek(0).unwrap();
    let mut out = String::new();
    buffer.read_qname(&mut out).unwrap();
    assert_eq!(out, "www.example.com");
    assert_eq!(buffer.pos(), 17);
}

#[test]
fn read_replaces_bytes_that_are_not_ascii() {
    let mut buffer = VectorPacketBuffer::new();
    for b in [2u8, 0xC3, 0x89, 1, b'Z', 0] {
        buffer.write_u8(b).unwrap();
    }
    buffer.seek(0).unwrap();
    let mut out = String::new();
    buffer.read_qname(&mut out).unwrap();
    assert_eq!(out, "\u{FFFD}\u{FFFD}.z");
}

#[test]
fn read_appends_to_what_the_string_holds() {
    let mut buffer = VectorPacketBuffer::new();
    buffer.write_qname("b.c").unwrap();
    buffer.seek(0).unwrap();
    let mut out = String::from("a-");
    buffer.read_qname(&mut out).unwrap();
    assert_eq!(out, "a-b.c");
}

#[test]
fn pointer_as_first_byte_is_whole_name_by_reference() {
    let mut buffer = VectorPacketBuffer::new();
    buffer.write_qname("example.com").unwrap();
    buffer.write_u8(0xC0).unwrap();
    buffer.write_u8(0x00).unwrap();
    buffer.seek(13).unwrap();
    let mut out = String::new();
    buffer.read_qname(&mut out).unwrap();
    assert_eq!(out, "example.com");
    assert_eq!(buffer.pos(), 15);
}

fn chain(hops: usize) -> VectorPacketBuffer {
    // a name, then `hops` pointers, each to the one before it
    let mut buffer = VectorPacketBuffer::new();
    buffer.write_u8(1).unwrap();
    buffer.write_u8(b'x').unwrap();
    buffer.write_u8(0).unwrap();
    let mut target: u8 = 0;
    for _ in 0..hops {
        let here = buffer.pos() as u8;
        buffer.write_u8(0xC0).unwrap();
        buffer.write_u8(target).unwrap();
        target = here;
    }
    buffer
}

#[test]
fn five_chained_pointers_are_followed() {
    let mut buffer = chain(5);
    let last = buffer.pos() - 2;
    buffer.seek(last).unwrap();
    let mut out = String::new();
    assert_eq!(buffer.read_qname(&mut out), Ok(()));
    assert_eq!(out, "x");
    assert_eq!(buffer.pos(), last + 2);
}

#[test]
fn six_chained_pointers_are_too_many() {
    let mut buffer = chain(6);
    let last = buffer.pos() - 2;
    buffer.seek(last).unwrap();
    let mut out = String::new();
    assert_eq!(buffer.read_qname(&mut out), Err(BufferError::TooManyJumps));
}

#[test]
fn pointer_loop_is_an_error() {
    let mut buffer = BytePacketBuffer::new();
    buffer.buf[0] = 0xC0;
    buffer.buf[1] = 0x00;
    let mut out = String::new();
    assert_eq!(buffer.read_qname(&mut out), Err(BufferError::TooManyJumps));
}

#[test]
fn label_length_over_63_is_refused_on_read() {
    let mut buffer = BytePacketBuffer::new();
    buffer.buf[0] = 64;
    let mut out = String::new();
    assert_eq!(buffer.read_qname(&mut out), Err(BufferError::InvalidLabelLength));
    buffer.seek(0).unwrap();
    buffer.buf[0] = 0xBF;
    assert_eq!(buffer.read_qname(&mut out), Err(BufferError::InvalidLabelLength));
}

#[test]
fn label_over_63_bytes_is_refused_on_write() {
    let long = "a".repeat(64);
    let mut buffer = VectorPacketBuffer::new();
    assert_eq!(buffer.write_qname(&long), Err(BufferError::InvalidLabelLength));
    let ok = "a".repeat(63);
    let mut buffer = VectorPacketBuffer::new();
    assert_eq!(buffer.write_qname(&ok), Ok(()));
    assert_eq!(buffer.buffer.len(), 65);
    assert_eq!(buffer.buffer[0], 63);
}

#[test]
fn name_cut_short_is_end_of_buffer() {
    let mut buffer = VectorPacketBuffer::new();
    for b in [3u8, b'a', b'b'] {
        buffer.write_u8(b).unwrap();
    }
    buffer.seek(0).unwrap();
    let mut out = String::new();
    assert_eq!(buffer.read_qname(&mut out), Err(BufferError::EndOfBuffer));
}

#[test]
fn fixed_buffer_never_compresses() {
    let mut buffer = BytePacketBuffer::new();
    buffer.write_qname("ns1.google.com").unwrap();
    buffer.write_qname("ns2.google.com").unwrap();
    assert_eq!(buffer.pos(), 32);
    assert_eq!(buffer.find_label("google.com"), None);
    buffer.seek(0).unwrap();
    let mut a = String::new();
    let mut b = String::new();
    buffer.read_qname(&mut a).unwrap();
    buffer.read_qname(&mut b).unwrap();
    assert_eq!(a, "ns1.google.com");
    assert_eq!(b, "ns2.google.com");
    assert_eq!(buffer.pos(), 32);
}

#[test]
fn name_round_trip_on_longest_labels() {
    let name = format!("{}.{}.{}.{}", "a".repeat(63), "B".repeat(63), "c".repeat(63), "d".repeat(61));
    assert_eq!(name.len() + 2, 255);
    let mut buffer = VectorPacketBuffer::new();
    buffer.write_qname(&name).unwrap();
    assert_eq!(buffer.pos(), 255);
    buffer.seek(0).unwrap();
    let mut out = String::new();
    buffer.read_qname(&mut out).unwrap();
    assert_eq!(out, name.to_lowercase());
    assert_eq!(buffer.pos(), 255);
}

#[test]
fn empty_label_is_written_as_zero_length() {
    let mut buffer = VectorPacketBuffer::new();
    buffer.write_qname("").unwrap();
    assert_eq!(buffer.buffer, vec![0, 0]);
}
