use teleinfo_parser::frame::checksum;
use teleinfo_parser::frame::Frame;
use teleinfo_parser::frame::FrameSyntax;
use teleinfo_parser::frame::MemSource;
use teleinfo_parser::frame::PeriodeTarifaire;
use teleinfo_parser::frame::Tag;
use teleinfo_parser::frame::TeleinfoError;
use teleinfo_parser::hc::HcInfos;
use teleinfo_parser::hc::Timestamp;
use teleinfo_parser::model::Field;

fn stamp() -> Timestamp {
    Timestamp { millis: 1_700_000_000_000 }
}

fn full_tags() -> Vec<Tag> {
    vec![
        Tag::ADCO(b"030928084432".to_vec()),
        Tag::PTEC(PeriodeTarifaire::HP),
        Tag::HCHC(9058688),
        Tag::HCHP(9752846),
        Tag::IINST(22),
        Tag::PAPP(370),
    ]
}

#[test]
fn extract_complete_frame() {
    let frame = Frame { tags: full_tags() };
    let infos = HcInfos::extract(frame, stamp()).unwrap();
    assert_eq!(infos.date, stamp());
    assert_eq!(infos.periode, "HP");
    assert_eq!(infos.hc, 9058688);
    assert_eq!(infos.hp, 9752846);
    assert_eq!(infos.iinst, 22);
    assert_eq!(infos.papp, 370);
    assert!(!infos.alerte);
}

#[test]
fn extract_periode_hc() {
    let mut tags = full_tags();
    tags[1] = Tag::PTEC(PeriodeTarifaire::HC);
    let infos = HcInfos::extract(Frame { tags }, stamp()).unwrap();
    assert_eq!(infos.periode, "HC");
}

#[test]
fn extract_missing_papp() {
    let tags: Vec<Tag> = full_tags().into_iter().filter(|t| !matches!(t, Tag::PAPP(_))).collect();
    let r = HcInfos::extract(Frame { tags }, stamp());
    assert!(matches!(
        r,
        Err(TeleinfoError::MissingField(Field::PuissanceApparente))
    ));
}

#[test]
fn extract_missing_each_field() {
    let cases: Vec<(usize, Field)> = vec![
        (1, Field::Periode),
        (2, Field::HeuresCreuses),
        (3, Field::HeuresPleines),
        (4, Field::IntensiteInstantanee),
        (5, Field::PuissanceApparente),
    ];
    for (drop_at, field) in cases {
        let mut tags = full_tags();
        tags.remove(drop_at);
        match HcInfos::extract(Frame { tags }, stamp()) {
            Err(TeleinfoError::MissingField(f)) => assert_eq!(f, field),
            other => panic!("expected a missing-field error, got {:?}", other),
        }
    }
}

#[test]
fn extract_alert_flag_tracks_adps() {
    let frame = Frame { tags: full_tags() };
    let infos = HcInfos::extract(frame, stamp()).unwrap();
    assert!(!infos.alerte);

    let mut tags = full_tags();
    tags.push(Tag::ADPS(0));
    let infos = HcInfos::extract(Frame { tags }, stamp()).unwrap();
    assert!(infos.alerte);

    let mut tags = full_tags();
    tags.insert(0, Tag::ADPS(-7));
    let infos = HcInfos::extract(Frame { tags }, stamp()).unwrap();
    assert!(infos.alerte);
}

#[test]
fn extract_rejects_out_of_plan_period() {
    let mut tags = full_tags();
    tags[1] = Tag::PTEC(PeriodeTarifaire::TH);
    let r = HcInfos::extract(Frame { tags }, stamp());
    assert!(matches!(
        r,
        Err(TeleinfoError::FrameError(FrameSyntax::UnexpectedPeriode(PeriodeTarifaire::TH)))
    ));

    let mut tags = full_tags();
    tags[1] = Tag::PTEC(PeriodeTarifaire::UNKNOWN(b"PM..".to_vec()));
    let r = HcInfos::extract(Frame { tags }, stamp());
    assert!(matches!(
        r,
        Err(TeleinfoError::FrameError(FrameSyntax::UnexpectedPeriode(_)))
    ));
}

#[test]
fn extract_later_tag_overwrites_earlier() {
    let mut tags = full_tags();
    tags.push(Tag::PAPP(5000));
    tags.push(Tag::IINST(3));
    let infos = HcInfos::extract(Frame { tags }, stamp()).unwrap();
    assert_eq!(infos.papp, 5000);
    assert_eq!(infos.iinst, 3);
}

#[test]
fn extract_ignores_other_tags() {
    let mut tags = full_tags();
    tags.push(Tag::MOTDETAT(b"000000".to_vec()));
    tags.push(Tag::HHPHC(b'A'));
    tags.push(Tag::UNKNOWN(b"XYZ".to_vec(), b"1".to_vec()));
    let infos = HcInfos::extract(Frame { tags }, stamp()).unwrap();
    assert_eq!(infos.papp, 370);
}

fn push_group(bytes: &mut Vec<u8>, lbl: &[u8], val: &[u8]) {
    bytes.push(0x0a);
    bytes.extend_from_slice(lbl);
    bytes.push(0x20);
    bytes.extend_from_slice(val);
    bytes.push(0x20);
    bytes.push(checksum(lbl, val));
    bytes.push(0x0d);
}

#[test]
fn read_record_from_byte_stream() {
    let mut bytes = vec![b'j', b'u', b'n', b'k', 0x02u8];
    push_group(&mut bytes, b"PTEC", b"HC..");
    push_group(&mut bytes, b"HCHC", b"123");
    push_group(&mut bytes, b"HCHP", b"456");
    push_group(&mut bytes, b"IINST", b"7");
    push_group(&mut bytes, b"PAPP", b"1600");
    bytes.push(0x03);
    let mut v = MemSource::new(bytes);
    let infos = HcInfos::read(&mut v).unwrap();
    assert_eq!(infos.periode, "HC");
    assert_eq!(infos.hc, 123);
    assert_eq!(infos.hp, 456);
    assert_eq!(infos.iinst, 7);
    assert_eq!(infos.papp, 1600);
    assert!(!infos.alerte);
}

#[test]
fn read_propagates_scan_errors() {
    let mut v = MemSource::new(vec![]);
    assert!(matches!(
        HcInfos::read(&mut v),
        Err(TeleinfoError::EndOfFile)
    ));

    let mut v = MemSource::new(vec![0x04]);
    assert!(matches!(
        HcInfos::read(&mut v),
        Err(TeleinfoError::EndOfTransmission)
    ));
}
