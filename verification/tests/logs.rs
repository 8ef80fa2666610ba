use worker_wrapper::log_write::{BaseLayerWriter, BaseWriter, LayerEntry, LogError, LogLayerWriter, LogWriter};
use worker_wrapper::trlog::{TrlogConfig, TrlogWriter};
use worker_wrapper::vilog::{VilogConfig, VilogWriter};

#[test]
fn base_writer_writes_little_endian() {
    let mut w = BaseWriter::new();
    w.write_u32(0x0102_0304);
    w.write_u8(9);
    w.write_i32(-1);
    assert_eq!(w.as_bytes(), &[4, 3, 2, 1, 9, 255, 255, 255, 255]);
    assert_eq!(w.offset, 9);
}

#[test]
fn base_writer_seek_overwrites_in_place() {
    let mut w = BaseWriter::new();
    w.write(&[1, 2, 3, 4, 5]);
    assert_eq!(w.seek(-3), Ok(2));
    w.write_u8(7);
    assert_eq!(w.as_bytes(), &[1, 2, 7, 4, 5]);
    assert_eq!(w.seek(-10), Err(LogError::InvalidSeek));
}

#[test]
fn layer_entry_encodings() {
    let mut e = LayerEntry::new(false);
    e.write_u16(0x0102);
    assert_eq!(e.write_u24(0x0304_0506), Err(LogError::OverU24(0x0304_0506)));
    assert_eq!(e.write_u24(0x0004_0506), Ok(3));
    assert_eq!(e.write_short_str("ab"), Ok(()));
    assert_eq!(e.payload(), &[1, 2, 6, 5, 4, 0, 2, b'a', b'b']);
    assert!(!e.should_clear());
}

#[test]
fn entries_are_framed_per_layer() {
    let mut layer = BaseLayerWriter::new();
    layer.entry().write_u8(5);
    layer.clear();
    layer.entry().write_u8(6);
    let mut w = BaseWriter::new();
    let mut last = 0u32;
    layer.write_entries(&mut w, &mut last, 3, 2);
    assert_eq!(last, 3);
    assert_eq!(w.entry_number, 2);
    assert_eq!(
        w.as_bytes(),
        &[3, 0, 0, 0, 2, 0, 0, 0, 0, 1, 0, 0, 0, 5, 0, 0, 0, 0, 2, 0, 0, 0, 1, 1, 0, 0, 0, 6]
    );
}

#[test]
fn vilog_header_and_finish() {
    let mut log = VilogWriter::new(VilogConfig::new(640, 480));
    log.layer(1).fill().unwrap();
    log.step().unwrap();
    assert_eq!(log.get_step(), 1);
    log.finish().unwrap();
}

#[test]
fn trlog_prints_lines() {
    let mut log = TrlogWriter::new(TrlogConfig::new());
    log.layer(0).println("hi").unwrap();
    log.layer(0).clear();
    log.step().unwrap();
    log.finish().unwrap();
}

#[test]
fn trlog_bytes_of_one_frame() {
    let mut log = TrlogWriter::new(TrlogConfig::new());
    assert_eq!(
        log.as_bytes(),
        &[116, 114, 108, 111, 1, 0, 0, 0, 16, 0, 0, 0, 0, 0, 0x70, 0x41, 255, 255, 255, 255, 255, 255, 255, 255, 255, 255, 255, 255]
    );
    log.layer(0).println("hi").unwrap();
    log.step().unwrap();
    log.finish().unwrap();
    let bytes = log.as_bytes();
    assert_eq!(bytes.len(), 48);
    assert_eq!(&bytes[16..28], &[1, 0, 0, 0, 1, 0, 0, 0, 20, 0, 0, 0]);
    assert_eq!(&bytes[28..], &[0, 0, 0, 0, 0, 0, 0, 0, 0, 7, 0, 0, 0, 0, 3, 0, 0, b'h', b'i', 10]);
}

#[test]
fn vilog_bytes_grow_with_commands() {
    let mut log = VilogWriter::new(VilogConfig::new(640, 480));
    let start = log.as_bytes().len();
    log.layer(2).set_line_color(0x102030).unwrap();
    log.step().unwrap();
    let bytes = log.as_bytes();
    assert!(bytes.len() > start);
    assert_eq!(&bytes[0..4], b"vilo");
}

#[test]
fn vilog_line_to_frames_float_bits() {
    let mut log = VilogWriter::new(VilogConfig::new(64, 64));
    assert_eq!(log.as_bytes().len(), 41);
    log.layer(0).line_to(1.0f32.to_bits(), 2.0f32.to_bits()).unwrap();
    log.step().unwrap();
    assert_eq!(
        &log.as_bytes()[41..],
        &[0, 0, 0, 0, 0, 0, 0, 0, 0, 9, 0, 0, 0, 0, 0, 0, 0x80, 0x3f, 0, 0, 0, 0x40]
    );
}

#[test]
fn vilog_commands_with_codes() {
    let mut log = VilogWriter::new(VilogConfig::new(64, 64));
    {
        let layer = log.layer(3);
        layer.set_line_alpha(0x1234).unwrap();
        layer.arrow_to(0, 0, true, false, true, 0, 0).unwrap();
        assert_eq!(
            layer.draw_columns(0, 0, 0, 0, &vec![0u32; 70000]),
            Err(LogError::TooLong(70000))
        );
    }
    log.step().unwrap();
    let bytes = log.as_bytes();
    // one entry on layer 3: alpha command, then the arrow with flags 0b101
    assert_eq!(&bytes[45..49], &[3, 0, 0, 0]);
    let payload = &bytes[54..];
    assert_eq!(&payload[0..3], &[22, 0x12, 0x34]);
    assert_eq!(payload[3], 15);
    assert_eq!(payload[12], 5);
    assert_eq!(payload[21], 10);
    assert_eq!(payload.len(), 21 + 17);
}
