use fmt_comparison::writer::{
    try_write_u32, write_dyn_str, write_dyn_u32, write_generic_str, write_generic_u32, BufferFull,
    TextSink,
};

fn buffer() -> heapless::String<64> {
    heapless::String::new()
}

#[test]
fn write_generic_str_appends() {
    let mut target = buffer();
    write_generic_str(&mut target, "Test");
    assert_eq!(target.as_str(), "Test");
    write_generic_str(&mut target, "");
    write_generic_str(&mut target, " again");
    assert_eq!(target.as_str(), "Test again");
}

#[test]
fn write_dyn_str_appends() {
    let mut target = buffer();
    write_dyn_str(&mut target, "Test");
    assert_eq!(target.as_str(), "Test");
    let sink: &mut dyn TextSink = &mut target;
    write_dyn_str(sink, "é!");
    assert_eq!(target.as_str(), "Testé!");
}

#[test]
fn write_generic_u32_writes_the_digits() {
    let mut target = buffer();
    write_generic_u32(&mut target, 123456);
    assert_eq!(target.as_str(), "123456");
}

#[test]
fn write_dyn_u32_writes_the_digits() {
    let mut target = buffer();
    write_dyn_u32(&mut target, 123456);
    assert_eq!(target.as_str(), "123456");
}

#[test]
fn write_u32_of_zero_is_one_digit() {
    let mut target = buffer();
    write_generic_u32(&mut target, 0);
    assert_eq!(target.as_str(), "0");
    let mut other = buffer();
    write_dyn_u32(&mut other, 0);
    assert_eq!(other.as_str(), "0");
}

#[test]
fn write_u32_keeps_inner_and_final_zeros() {
    for value in [10, 100, 101, 1000000000, 1000000001, 1234567890, 4294967295, 9, 99, 4000000000] {
        let mut target = buffer();
        write_generic_u32(&mut target, value);
        assert_eq!(target.as_str(), value.to_string());
        let mut other = buffer();
        write_dyn_u32(&mut other, value);
        assert_eq!(other.as_str(), value.to_string());
    }
}

#[test]
fn write_u32_agrees_with_std() {
    let mut value: u32 = 1;
    for _ in 0..500 {
        let mut target = buffer();
        write_generic_u32(&mut target, value);
        assert_eq!(target.as_str(), value.to_string());
        let mut other = buffer();
        write_dyn_u32(&mut other, value >> (value % 32));
        assert_eq!(other.as_str(), (value >> (value % 32)).to_string());
        value = value.wrapping_mul(1664525).wrapping_add(1013904223);
    }
}

#[test]
fn writes_follow_what_the_target_holds() {
    let mut target = buffer();
    write_generic_str(&mut target, "Test");
    write_generic_u32(&mut target, 123456);
    write_dyn_str(&mut target, "Test");
    write_dyn_u32(&mut target, 4294967295);
    assert_eq!(target.as_str(), "Test123456Test4294967295");
}

#[test]
fn writes_fill_the_target_to_the_last_byte() {
    let mut target = buffer();
    write_generic_str(&mut target, "0123456789012345678901234567890123456789012345678901234");
    assert_eq!(target.len(), 55);
    write_generic_u32(&mut target, 123456789);
    assert_eq!(target.len(), 64);
    assert_eq!(
        target.as_str(),
        "0123456789012345678901234567890123456789012345678901234123456789"
    );
    write_dyn_str(&mut target, "");
    assert_eq!(target.len(), 64);
}

#[test]
fn sink_refuses_what_does_not_fit() {
    let mut target = buffer();
    assert_eq!(TextSink::write_str(&mut target, "0123456789012345678901234567890123456789012345678901234567890"), Ok(()));
    assert_eq!(target.len(), 61);
    assert_eq!(TextSink::write_str(&mut target, "abcd"), Err(BufferFull));
    assert_eq!(target.len(), 61);
    assert_eq!(TextSink::write_char(&mut target, '\u{10348}'), Err(BufferFull));
    assert_eq!(TextSink::write_char(&mut target, 'é'), Ok(()));
    assert_eq!(target.len(), 63);
    assert_eq!(TextSink::write_char(&mut target, 'é'), Err(BufferFull));
    assert_eq!(TextSink::write_str(&mut target, "é"), Err(BufferFull));
    assert_eq!(TextSink::write_char(&mut target, 'x'), Ok(()));
    assert_eq!(TextSink::write_char(&mut target, 'y'), Err(BufferFull));
    assert_eq!(TextSink::write_str(&mut target, ""), Ok(()));
    assert_eq!(
        target.as_str(),
        "0123456789012345678901234567890123456789012345678901234567890éx"
    );
}

#[test]
fn sink_counts_bytes_not_characters() {
    let mut target = buffer();
    for _ in 0..16 {
        assert_eq!(TextSink::write_char(&mut target, '\u{10348}'), Ok(()));
    }
    assert_eq!(target.len(), 64);
    assert_eq!(target.chars().count(), 16);
    assert_eq!(TextSink::write_char(&mut target, 'a'), Err(BufferFull));
}

#[test]
fn room_is_what_is_left_of_the_capacity() {
    let mut target = buffer();
    assert_eq!(target.room(), 64);
    write_generic_str(&mut target, "Test");
    assert_eq!(target.room(), 60);
    write_generic_str(&mut target, "é\u{10348}");
    assert_eq!(target.room(), 54);
    write_generic_u32(&mut target, 4294967295);
    assert_eq!(target.room(), 44);
    let sink: &mut dyn TextSink = &mut target;
    assert_eq!(sink.room(), 44);
}

#[test]
fn try_write_u32_writes_where_the_digits_fit() {
    let mut target = buffer();
    assert_eq!(try_write_u32(&mut target, 123456), Ok(()));
    assert_eq!(target.as_str(), "123456");
    assert_eq!(try_write_u32(&mut target, 0), Ok(()));
    assert_eq!(target.as_str(), "1234560");
    let sink: &mut dyn TextSink = &mut target;
    assert_eq!(try_write_u32(sink, 77), Ok(()));
    assert_eq!(target.as_str(), "123456077");
}

#[test]
fn try_write_u32_leaves_a_full_target_as_it_is() {
    let mut target = buffer();
    write_generic_str(&mut target, "0123456789012345678901234567890123456789012345678901234567");
    assert_eq!(target.room(), 6);
    assert_eq!(try_write_u32(&mut target, 1234567), Err(BufferFull));
    assert_eq!(target.room(), 6);
    assert_eq!(try_write_u32(&mut target, 123456), Ok(()));
    assert_eq!(target.room(), 0);
    assert_eq!(try_write_u32(&mut target, 0), Err(BufferFull));
    assert_eq!(
        target.as_str(),
        "0123456789012345678901234567890123456789012345678901234567123456"
    );
}
