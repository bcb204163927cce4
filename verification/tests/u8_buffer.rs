use vocab_quiz::tools::u8_buffer::U8Buffer;

#[test]
fn empty_buffer_has_no_data() {
    let mut bytes = [1u8, 2, 3, 4];
    let buf = U8Buffer::create_empty(&mut bytes);
    assert_eq!(buf.len(), 0);
    assert_eq!(buf.capacity(), 4);
    assert_eq!(buf.get_data(), &[] as &[u8]);
}

#[test]
fn full_buffer_holds_all_bytes() {
    let mut bytes = [1u8, 2, 3, 4];
    let buf = U8Buffer::create_full(&mut bytes);
    assert_eq!(buf.len(), 4);
    assert_eq!(buf.capacity(), 4);
    assert_eq!(buf.get_data(), &[1, 2, 3, 4]);
}

#[test]
fn reading_moves_the_front() {
    let mut bytes = [1u8, 2, 3, 4, 5];
    let mut buf = U8Buffer::create_full(&mut bytes);
    let mut two = [0u8; 2];
    assert_eq!(buf.read(&mut two), 2);
    assert_eq!(two, [1, 2]);
    assert_eq!(buf.get_data(), &[3, 4, 5]);
    buf.advance_read(1);
    assert_eq!(buf.get_data(), &[4, 5]);
    buf.reverse_read(3);
    assert_eq!(buf.get_data(), &[1, 2, 3, 4, 5]);
    assert_eq!(buf.read(&mut []), 0);
    assert_eq!(buf.len(), 5);
    let mut all = [0u8; 5];
    assert_eq!(buf.read(&mut all), 5);
    assert_eq!(all, [1, 2, 3, 4, 5]);
    assert_eq!(buf.len(), 0);
}

#[test]
fn writing_moves_the_back() {
    let mut bytes = [0u8; 6];
    {
        let mut buf = U8Buffer::create_empty(&mut bytes);
        assert_eq!(buf.write(&[7, 8]), 2);
        assert_eq!(buf.write(&[]), 0);
        assert_eq!(buf.write(&[9]), 1);
        assert_eq!(buf.get_data(), &[7, 8, 9]);
        buf.reverse_write(2);
        assert_eq!(buf.get_data(), &[7]);
        buf.advance_write(1);
        assert_eq!(buf.get_data(), &[7, 8]);
        assert_eq!(buf.len(), 2);
        assert_eq!(buf.capacity(), 6);
    }
    assert_eq!(bytes, [7, 8, 9, 0, 0, 0]);
}

#[test]
fn a_size_can_be_written_in_front_of_what_follows_it() {
    let mut bytes = [0u8; 8];
    {
        let mut buf = U8Buffer::create_empty(&mut bytes);
        buf.advance_write(2);
        let n = buf.write(&[5, 6, 7]);
        buf.reverse_write(2 + n);
        buf.write(&[n as u8, 0]);
        buf.advance_write(n);
        assert_eq!(buf.get_data(), &[3, 0, 5, 6, 7]);
    }
    assert_eq!(bytes, [3, 0, 5, 6, 7, 0, 0, 0]);
}

#[test]
fn forcing_the_length_gives_the_length_before() {
    let mut bytes = [1u8, 2, 3, 4, 5, 6];
    let mut buf = U8Buffer::create_full(&mut bytes);
    buf.advance_read(1);
    assert_eq!(buf.force_len(2), 5);
    assert_eq!(buf.get_data(), &[2, 3]);
    assert_eq!(buf.force_len(5), 2);
    assert_eq!(buf.get_data(), &[2, 3, 4, 5, 6]);
}

#[test]
fn shifting_moves_the_data_to_the_front() {
    let mut bytes = [1u8, 2, 3, 4, 5, 6];
    {
        let mut buf = U8Buffer::create_full(&mut bytes);
        buf.advance_read(2);
        buf.reverse_write(1);
        assert_eq!(buf.get_data(), &[3, 4, 5]);
        buf.shift_to_front();
        assert_eq!(buf.get_data(), &[3, 4, 5]);
        assert_eq!(buf.len(), 3);
        buf.reverse_write(3);
        buf.advance_write(6);
        assert_eq!(buf.get_data(), &[3, 4, 5, 4, 5, 6]);
        buf.shift_to_front();
        assert_eq!(buf.get_data(), &[3, 4, 5, 4, 5, 6]);
    }
    assert_eq!(bytes, [3, 4, 5, 4, 5, 6]);
}

#[test]
fn read_to_end_copies_the_data_and_leaves_it() {
    let mut bytes = [1u8, 2, 3, 4];
    let mut buf = U8Buffer::create_full(&mut bytes);
    buf.advance_read(1);
    let mut out = vec![9];
    assert_eq!(buf.read_to_end(&mut out), 3);
    assert_eq!(out, vec![9, 2, 3, 4]);
    assert_eq!(buf.len(), 3);
}
