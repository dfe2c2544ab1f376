use teleinfo_parser::frame::checksum;
use teleinfo_parser::frame::expect_char;
use teleinfo_parser::frame::parse_i32;
use teleinfo_parser::frame::parse_tag;
use teleinfo_parser::frame::read_char;
use teleinfo_parser::frame::read_to_sep;
use teleinfo_parser::frame::skip_to;
use teleinfo_parser::frame::Frame;
use teleinfo_parser::frame::FrameSyntax;
use teleinfo_parser::frame::MemSource;
use teleinfo_parser::frame::OptionTarifaire;
use teleinfo_parser::frame::PeriodeTarifaire;
use teleinfo_parser::frame::Tag;
use teleinfo_parser::frame::TeleinfoError;

fn push_group(bytes: &mut Vec<u8>, lbl: &[u8], val: &[u8]) {
    bytes.push(0x0a);
    bytes.extend_from_slice(lbl);
    bytes.push(0x20);
    bytes.extend_from_slice(val);
    bytes.push(0x20);
    bytes.push(checksum(lbl, val));
    bytes.push(0x0d);
}

fn encode_frame(pairs: &[(&[u8], &[u8])]) -> Vec<u8> {
    let mut bytes = vec![0x02u8];
    for (lbl, val) in pairs {
        push_group(&mut bytes, lbl, val);
    }
    bytes.push(0x03);
    bytes
}

#[test]
fn test_read_char() {
    let mut v = MemSource::new(vec![b'x', 4]);

    let c = read_char(&mut v);
    assert!(matches!(c, Ok(b'x')));

    let c = read_char(&mut v);
    assert!(matches!(c, Err(TeleinfoError::EndOfTransmission)));

    let c = read_char(&mut v);
    assert!(matches!(c, Err(TeleinfoError::EndOfFile)));
}

#[test]
fn test_expect_char() {
    let mut v = MemSource::new(vec![b'a', b'b']);

    let r = expect_char(&mut v, b'a');
    assert!(matches!(r, Ok(())));

    let r = expect_char(&mut v, b'a');
    assert!(matches!(r, Err(TeleinfoError::FrameError(_))));
}

#[test]
fn test_read_to_sep() {
    let mut v = MemSource::new(vec![b'a', b'b', b'c', 0x20, b'd']);

    let r = read_to_sep(&mut v);
    assert_eq!(r.unwrap(), b"abc".to_vec());

    let r = read_to_sep(&mut v);
    assert!(matches!(r, Err(TeleinfoError::EndOfFile)));
}

#[test]
fn test_skip_to() {
    let mut v = MemSource::new(vec![b'a', b'b', b'c']);

    let r = skip_to(&mut v, b'b');
    assert!(matches!(r, Ok(())));

    let c = read_char(&mut v);
    assert!(matches!(c, Ok(b'c')));
}

#[test]
fn test_parse_tag() {
    let t = parse_tag(b"BASE", b"99").unwrap();
    assert!(matches!(t, Tag::BASE(99)));
}

#[test]
fn test_checksum() {
    let s = checksum(b"PAPP", b"00380");
    assert_eq!(s, b',');
}

#[test]
fn checksum_is_pure() {
    assert_eq!(checksum(b"PAPP", b"00380"), checksum(b"PAPP", b"00380"));
    assert_eq!(checksum(b"HCHC", b"9058688"), checksum(b"HCHC", b"9058688"));
}

#[test]
fn parse_tag_unknown_label() {
    let t = parse_tag(b"XYZ", b"123").unwrap();
    match t {
        Tag::UNKNOWN(lbl, val) => {
            assert_eq!(lbl, b"XYZ".to_vec());
            assert_eq!(val, b"123".to_vec());
        },
        _ => panic!("expected the unknown tag"),
    }
}

#[test]
fn parse_tag_optarif_literals() {
    assert!(matches!(
        parse_tag(b"OPTARIF", b"Base").unwrap(),
        Tag::OPTARIF(OptionTarifaire::Base)
    ));
    assert!(matches!(
        parse_tag(b"OPTARIF", b"HC..").unwrap(),
        Tag::OPTARIF(OptionTarifaire::HC)
    ));
    assert!(matches!(
        parse_tag(b"OPTARIF", b"EJP.").unwrap(),
        Tag::OPTARIF(OptionTarifaire::EJP)
    ));
    match parse_tag(b"OPTARIF", b"BBR.").unwrap() {
        Tag::OPTARIF(OptionTarifaire::UNKNOWN(raw)) => assert_eq!(raw, b"BBR.".to_vec()),
        _ => panic!("expected the unknown option"),
    }
}

#[test]
fn parse_tag_ptec_literals() {
    assert!(matches!(
        parse_tag(b"PTEC", b"TH..").unwrap(),
        Tag::PTEC(PeriodeTarifaire::TH)
    ));
    assert!(matches!(
        parse_tag(b"PTEC", b"HC..").unwrap(),
        Tag::PTEC(PeriodeTarifaire::HC)
    ));
    assert!(matches!(
        parse_tag(b"PTEC", b"HP..").unwrap(),
        Tag::PTEC(PeriodeTarifaire::HP)
    ));
    match parse_tag(b"PTEC", b"PM..").unwrap() {
        Tag::PTEC(PeriodeTarifaire::UNKNOWN(raw)) => assert_eq!(raw, b"PM..".to_vec()),
        _ => panic!("expected the unknown period"),
    }
}

#[test]
fn parse_tag_number_errors() {
    assert!(matches!(
        parse_tag(b"BASE", b"12a"),
        Err(TeleinfoError::FrameError(FrameSyntax::NumberFormat(_)))
    ));
    assert!(matches!(
        parse_tag(b"IINST", b""),
        Err(TeleinfoError::FrameError(FrameSyntax::NumberFormat(_)))
    ));
    assert!(matches!(
        parse_tag(b"PAPP", b"+"),
        Err(TeleinfoError::FrameError(FrameSyntax::NumberFormat(_)))
    ));
}

#[test]
fn parse_tag_hhphc() {
    assert!(matches!(parse_tag(b"HHPHC", b"Y").unwrap(), Tag::HHPHC(b'Y')));
    assert!(matches!(parse_tag(b"HHPHC", b"AB").unwrap(), Tag::HHPHC(b'A')));
    assert!(matches!(
        parse_tag(b"HHPHC", b""),
        Err(TeleinfoError::FrameError(FrameSyntax::EmptyValue))
    ));
}

#[test]
fn parse_i32_signs_and_limits() {
    assert_eq!(parse_i32(b"0"), Some(0));
    assert_eq!(parse_i32(b"007"), Some(7));
    assert_eq!(parse_i32(b"+99"), Some(99));
    assert_eq!(parse_i32(b"-123"), Some(-123));
    assert_eq!(parse_i32(b"2147483647"), Some(i32::MAX));
    assert_eq!(parse_i32(b"2147483648"), None);
    assert_eq!(parse_i32(b"-2147483648"), Some(i32::MIN));
    assert_eq!(parse_i32(b"-2147483649"), None);
    assert_eq!(parse_i32(b""), None);
    assert_eq!(parse_i32(b"-"), None);
    assert_eq!(parse_i32(b"1 2"), None);
}

#[test]
fn scan_well_formed_frame() {
    let bytes = encode_frame(&[
        (b"ADCO", b"030928084432"),
        (b"OPTARIF", b"HC.."),
        (b"ISOUSC", b"45"),
        (b"HCHC", b"9058688"),
        (b"HCHP", b"9752846"),
        (b"PTEC", b"HP.."),
        (b"IINST", b"22"),
        (b"PAPP", b"00370"),
    ]);
    let mut v = MemSource::new(bytes);
    let frame = Frame::next_frame(&mut v).unwrap();
    assert_eq!(frame.tags.len(), 8);
    assert!(matches!(frame.tags[0], Tag::ADCO(_)));
    assert!(matches!(frame.tags[1], Tag::OPTARIF(OptionTarifaire::HC)));
    assert!(matches!(frame.tags[2], Tag::ISOUSC(45)));
    assert!(matches!(frame.tags[3], Tag::HCHC(9058688)));
    assert!(matches!(frame.tags[4], Tag::HCHP(9752846)));
    assert!(matches!(frame.tags[5], Tag::PTEC(PeriodeTarifaire::HP)));
    assert!(matches!(frame.tags[6], Tag::IINST(22)));
    assert!(matches!(frame.tags[7], Tag::PAPP(370)));
}

#[test]
fn scan_bad_checksum() {
    let mut bytes = vec![0x02u8];
    push_group(&mut bytes, b"PAPP", b"00370");
    // Corrupt exactly the checksum byte: it sits just before the closing
    // carriage return, and adding one keeps it off the abort marker.
    let at: usize = bytes.len() - 2;
    bytes[at] = bytes[at].wrapping_add(1);
    bytes.push(0x03);
    let mut v = MemSource::new(bytes);
    let frame = Frame::next_frame(&mut v);
    assert!(matches!(frame, Err(TeleinfoError::ChecksumError)));
}

#[test]
fn scan_bad_checksum_in_later_group() {
    let mut bytes = vec![0x02u8];
    push_group(&mut bytes, b"HCHC", b"9058688");
    push_group(&mut bytes, b"PAPP", b"00370");
    // Corrupt exactly the second group's checksum byte.
    let at: usize = bytes.len() - 2;
    bytes[at] = bytes[at].wrapping_add(1);
    bytes.push(0x03);
    let mut v = MemSource::new(bytes);
    let frame = Frame::next_frame(&mut v);
    assert!(matches!(frame, Err(TeleinfoError::ChecksumError)));
}

#[test]
fn scan_past_noise_before_frame() {
    let mut bytes = vec![b'?', 0x0d, 0x0a, b'x'];
    bytes.extend_from_slice(&encode_frame(&[(b"BASE", b"99")]));
    let mut v = MemSource::new(bytes);
    let frame = Frame::next_frame(&mut v).unwrap();
    assert_eq!(frame.tags.len(), 1);
    assert!(matches!(frame.tags[0], Tag::BASE(99)));
}

#[test]
fn scan_end_of_input_while_synchronizing() {
    let mut v = MemSource::new(vec![]);
    assert!(matches!(
        Frame::next_frame(&mut v),
        Err(TeleinfoError::EndOfFile)
    ));

    let mut noise = MemSource::new(vec![b'n', b'o', b'i', b's', b'e']);
    assert!(matches!(
        Frame::next_frame(&mut noise),
        Err(TeleinfoError::EndOfFile)
    ));
}

#[test]
fn scan_abort_while_synchronizing() {
    let mut v = MemSource::new(vec![0x04]);
    assert!(matches!(
        Frame::next_frame(&mut v),
        Err(TeleinfoError::EndOfTransmission)
    ));
}

#[test]
fn scan_expects_line_feed_after_start() {
    let mut v = MemSource::new(vec![0x02, b'x']);
    match Frame::next_frame(&mut v) {
        Err(TeleinfoError::FrameError(FrameSyntax::Expected(0x0a, b'x'))) => (),
        other => panic!("expected the line-feed syntax error, got {:?}", other),
    }
}

#[test]
fn scan_expects_carriage_return_after_group() {
    let mut bytes = vec![0x02u8, 0x0a];
    bytes.extend_from_slice(b"PAPP");
    bytes.push(0x20);
    bytes.extend_from_slice(b"00370");
    bytes.push(0x20);
    bytes.push(checksum(b"PAPP", b"00370"));
    bytes.push(b'z');
    let mut v = MemSource::new(bytes);
    match Frame::next_frame(&mut v) {
        Err(TeleinfoError::FrameError(FrameSyntax::Expected(0x0d, b'z'))) => (),
        other => panic!("expected the carriage-return syntax error, got {:?}", other),
    }
}

#[test]
fn scan_abort_inside_group() {
    let mut v = MemSource::new(vec![0x02, 0x0a, b'P', 0x04]);
    assert!(matches!(
        Frame::next_frame(&mut v),
        Err(TeleinfoError::EndOfTransmission)
    ));
}

#[test]
fn scan_number_error_inside_frame() {
    let bytes = encode_frame(&[(b"BASE", b"12a")]);
    let mut v = MemSource::new(bytes);
    match Frame::next_frame(&mut v) {
        Err(TeleinfoError::FrameError(FrameSyntax::NumberFormat(raw))) => {
            assert_eq!(raw, b"12a".to_vec());
        },
        other => panic!("expected the number-format error, got {:?}", other),
    }
}

#[test]
fn scan_second_frame_after_first() {
    let mut bytes = encode_frame(&[(b"BASE", b"99"), (b"IINST", b"10")]);
    bytes.extend_from_slice(&encode_frame(&[(b"PAPP", b"00370")]));
    bytes.extend_from_slice(b"trailing");
    let mut v = MemSource::new(bytes);

    let first = Frame::next_frame(&mut v).unwrap();
    assert_eq!(first.tags.len(), 2);
    assert!(matches!(first.tags[0], Tag::BASE(99)));
    assert!(matches!(first.tags[1], Tag::IINST(10)));

    let second = Frame::next_frame(&mut v).unwrap();
    assert_eq!(second.tags.len(), 1);
    assert!(matches!(second.tags[0], Tag::PAPP(370)));
}
