//! Mathematical model of the wire protocol: the byte-level control tokens,
//! the checksum function, base-10 integer parsing, tag decoding, and the
//! frame scanner, all as specification functions over `Seq<u8>`.

use vstd::prelude::*;

verus! {

/// Start-of-frame marker.
pub const STX: u8 = 0x02;

/// End-of-frame marker.
pub const ETX: u8 = 0x03;

/// Abort marker: the far end interrupted the transmission.
pub const EOT: u8 = 0x04;

/// Opens one tag group inside a frame.
pub const LF: u8 = 0x0A;

/// Closes one tag group inside a frame.
pub const CR: u8 = 0x0D;

/// Field separator inside a tag group.
pub const SEPARATOR: u8 = 0x20;

/// Byte addition modulo 256.
pub open spec fn wadd(a: u8, b: u8) -> u8 {
    if a + b < 256 {
        (a + b) as u8
    } else {
        (a + b - 256) as u8
    }
}

/// Sum of a byte sequence, wrapping modulo 256.
pub open spec fn sum_bytes(s: Seq<u8>) -> u8
    decreases s.len(),
{
    if s.len() == 0 {
        0u8
    } else {
        wadd(sum_bytes(s.drop_last()), s.last())
    }
}

/// The checksum of one tag group: the wrapping sum of the label bytes, one
/// separator byte and the value bytes, masked to its low 6 bits and offset
/// into the printable range.
pub open spec fn checksum_spec(lbl: Seq<u8>, val: Seq<u8>) -> u8 {
    ((sum_bytes(lbl.push(SEPARATOR) + val) & 0x3f) + 0x20) as u8
}

/// Model of the subscribed tariff option.
pub ghost enum OptionM {
    Base,
    HeuresCreuses,
    Ejp,
    Unknown(Seq<u8>),
}

/// Model of the current tariff period.
pub ghost enum PeriodeM {
    ToutesHeures,
    HeuresCreuses,
    HeuresPleines,
    Unknown(Seq<u8>),
}

/// Model of one decoded tag.
pub ghost enum TagM {
    Adco(Seq<u8>),
    Optarif(OptionM),
    Isousc(i32),
    Base(i32),
    Hchc(i32),
    Hchp(i32),
    Ptec(PeriodeM),
    Iinst(i32),
    Adps(i32),
    Imax(i32),
    Papp(i32),
    Hhphc(u8),
    Motdetat(Seq<u8>),
    Unknown(Seq<u8>, Seq<u8>),
}

/// A mandatory field of the extracted record.
#[derive(Clone, Copy, Debug, PartialEq, Eq, Structural)]
pub enum Field {
    Periode,
    HeuresCreuses,
    HeuresPleines,
    IntensiteInstantanee,
    PuissanceApparente,
}

/// Model of a malformed group or frame.
pub ghost enum SyntaxM {
    /// One byte was required (first payload) but another was read (second).
    Expected(u8, u8),
    /// A numeric field whose raw text is not a base-10 signed 32-bit value.
    NumberFormat(Seq<u8>),
    /// The schedule-marker tag with an empty value.
    EmptyValue,
    /// A period tag outside the two periods of this tariff plan.
    UnexpectedPeriode(PeriodeM),
}

/// Model of every error the decoder can report.
pub ghost enum ErrorM {
    EndOfInput,
    Io,
    Aborted,
    Syntax(SyntaxM),
    Checksum,
    MissingField(Field),
}

/// An ASCII decimal digit.
pub open spec fn is_digit(b: u8) -> bool {
    0x30 <= b <= 0x39
}

pub open spec fn all_digits(s: Seq<u8>) -> bool {
    forall|i: int| 0 <= i < s.len() ==> is_digit(#[trigger] s[i])
}

/// The integer denoted by a sequence of decimal digit bytes.
pub open spec fn digits_value(s: Seq<u8>) -> int
    decreases s.len(),
{
    if s.len() == 0 {
        0
    } else {
        10 * digits_value(s.drop_last()) + (s.last() - 0x30)
    }
}

/// The signed value of a non-empty all-digit sequence, if it fits in `i32`.
pub open spec fn digits_to_i32(digits: Seq<u8>, negative: bool) -> Option<i32> {
    if digits.len() > 0 && all_digits(digits) {
        let m = digits_value(digits);
        if negative {
            if m <= 0x8000_0000 {
                Some((-m) as i32)
            } else {
                None
            }
        } else {
            if m <= 0x7fff_ffff {
                Some(m as i32)
            } else {
                None
            }
        }
    } else {
        None
    }
}

/// Base-10 signed 32-bit parse of a raw field text: an optional sign
/// followed by at least one digit, with the value in range.
pub open spec fn parse_i32_spec(s: Seq<u8>) -> Option<i32> {
    if s.len() > 0 && s[0] == 0x2b {
        digits_to_i32(s.skip(1), false)
    } else if s.len() > 0 && s[0] == 0x2d {
        digits_to_i32(s.skip(1), true)
    } else {
        digits_to_i32(s, false)
    }
}

/// "ADCO" in ASCII.
pub open spec fn lbl_adco() -> Seq<u8> {
    seq![0x41u8, 0x44u8, 0x43u8, 0x4fu8]
}

/// "OPTARIF" in ASCII.
pub open spec fn lbl_optarif() -> Seq<u8> {
    seq![0x4fu8, 0x50u8, 0x54u8, 0x41u8, 0x52u8, 0x49u8, 0x46u8]
}

/// "ISOUSC" in ASCII.
pub open spec fn lbl_isousc() -> Seq<u8> {
    seq![0x49u8, 0x53u8, 0x4fu8, 0x55u8, 0x53u8, 0x43u8]
}

/// "BASE" in ASCII.
pub open spec fn lbl_base() -> Seq<u8> {
    seq![0x42u8, 0x41u8, 0x53u8, 0x45u8]
}

/// "HCHC" in ASCII.
pub open spec fn lbl_hchc() -> Seq<u8> {
    seq![0x48u8, 0x43u8, 0x48u8, 0x43u8]
}

/// "HCHP" in ASCII.
pub open spec fn lbl_hchp() -> Seq<u8> {
    seq![0x48u8, 0x43u8, 0x48u8, 0x50u8]
}

/// "PTEC" in ASCII.
pub open spec fn lbl_ptec() -> Seq<u8> {
    seq![0x50u8, 0x54u8, 0x45u8, 0x43u8]
}

/// "IINST" in ASCII.
pub open spec fn lbl_iinst() -> Seq<u8> {
    seq![0x49u8, 0x49u8, 0x4eu8, 0x53u8, 0x54u8]
}

/// "IMAX" in ASCII.
pub open spec fn lbl_imax() -> Seq<u8> {
    seq![0x49u8, 0x4du8, 0x41u8, 0x58u8]
}

/// "ADPS" in ASCII.
pub open spec fn lbl_adps() -> Seq<u8> {
    seq![0x41u8, 0x44u8, 0x50u8, 0x53u8]
}

/// "PAPP" in ASCII.
pub open spec fn lbl_papp() -> Seq<u8> {
    seq![0x50u8, 0x41u8, 0x50u8, 0x50u8]
}

/// "HHPHC" in ASCII.
pub open spec fn lbl_hhphc() -> Seq<u8> {
    seq![0x48u8, 0x48u8, 0x50u8, 0x48u8, 0x43u8]
}

/// "MOTDETAT" in ASCII.
pub open spec fn lbl_motdetat() -> Seq<u8> {
    seq![0x4du8, 0x4fu8, 0x54u8, 0x44u8, 0x45u8, 0x54u8, 0x41u8, 0x54u8]
}

/// "Base" in ASCII.
pub open spec fn val_base() -> Seq<u8> {
    seq![0x42u8, 0x61u8, 0x73u8, 0x65u8]
}

/// "HC.." in ASCII.
pub open spec fn val_hc() -> Seq<u8> {
    seq![0x48u8, 0x43u8, 0x2eu8, 0x2eu8]
}

/// "EJP." in ASCII.
pub open spec fn val_ejp() -> Seq<u8> {
    seq![0x45u8, 0x4au8, 0x50u8, 0x2eu8]
}

/// "TH.." in ASCII.
pub open spec fn val_th() -> Seq<u8> {
    seq![0x54u8, 0x48u8, 0x2eu8, 0x2eu8]
}

/// "HP.." in ASCII.
pub open spec fn val_hp() -> Seq<u8> {
    seq![0x48u8, 0x50u8, 0x2eu8, 0x2eu8]
}

/// Decoding of a tariff-option value: three known literals, anything else
/// degrades to the unknown arm.
pub open spec fn decode_option(val: Seq<u8>) -> OptionM {
    if val == val_base() {
        OptionM::Base
    } else if val == val_hc() {
        OptionM::HeuresCreuses
    } else if val == val_ejp() {
        OptionM::Ejp
    } else {
        OptionM::Unknown(val)
    }
}

/// Decoding of a tariff-period value: three known literals, anything else
/// degrades to the unknown arm.
pub open spec fn decode_periode(val: Seq<u8>) -> PeriodeM {
    if val == val_th() {
        PeriodeM::ToutesHeures
    } else if val == val_hc() {
        PeriodeM::HeuresCreuses
    } else if val == val_hp() {
        PeriodeM::HeuresPleines
    } else {
        PeriodeM::Unknown(val)
    }
}

/// The result of a base-10 parse of a numeric field, or the error naming
/// the offending raw text.
pub open spec fn decode_number(val: Seq<u8>) -> Result<i32, ErrorM> {
    match parse_i32_spec(val) {
        Some(n) => Ok(n),
        None => Err(ErrorM::Syntax(SyntaxM::NumberFormat(val))),
    }
}

/// The dispatch table from a raw (label, value) pair to a typed tag.
/// Unrecognized labels map to the unknown tag rather than failing.
pub open spec fn decode_tag(lbl: Seq<u8>, val: Seq<u8>) -> Result<TagM, ErrorM> {
    if lbl == lbl_adco() {
        Ok(TagM::Adco(val))
    } else if lbl == lbl_optarif() {
        Ok(TagM::Optarif(decode_option(val)))
    } else if lbl == lbl_isousc() {
        match decode_number(val) {
            Ok(n) => Ok(TagM::Isousc(n)),
            Err(e) => Err(e),
        }
    } else if lbl == lbl_base() {
        match decode_number(val) {
            Ok(n) => Ok(TagM::Base(n)),
            Err(e) => Err(e),
        }
    } else if lbl == lbl_hchc() {
        match decode_number(val) {
            Ok(n) => Ok(TagM::Hchc(n)),
            Err(e) => Err(e),
        }
    } else if lbl == lbl_hchp() {
        match decode_number(val) {
            Ok(n) => Ok(TagM::Hchp(n)),
            Err(e) => Err(e),
        }
    } else if lbl == lbl_ptec() {
        Ok(TagM::Ptec(decode_periode(val)))
    } else if lbl == lbl_iinst() {
        match decode_number(val) {
            Ok(n) => Ok(TagM::Iinst(n)),
            Err(e) => Err(e),
        }
    } else if lbl == lbl_imax() {
        match decode_number(val) {
            Ok(n) => Ok(TagM::Imax(n)),
            Err(e) => Err(e),
        }
    } else if lbl == lbl_adps() {
        match decode_number(val) {
            Ok(n) => Ok(TagM::Adps(n)),
            Err(e) => Err(e),
        }
    } else if lbl == lbl_papp() {
        match decode_number(val) {
            Ok(n) => Ok(TagM::Papp(n)),
            Err(e) => Err(e),
        }
    } else if lbl == lbl_hhphc() {
        if val.len() == 0 {
            Err(ErrorM::Syntax(SyntaxM::EmptyValue))
        } else {
            Ok(TagM::Hhphc(val[0]))
        }
    } else if lbl == lbl_motdetat() {
        Ok(TagM::Motdetat(val))
    } else {
        Ok(TagM::Unknown(lbl, val))
    }
}

/// Reading one byte from the front of the stream: the byte itself, or end
/// of input, or the abort marker, together with how many bytes were
/// consumed.
pub open spec fn read_byte_spec(bytes: Seq<u8>) -> (Result<u8, ErrorM>, int) {
    if bytes.len() == 0 {
        (Err(ErrorM::EndOfInput), 0)
    } else if bytes[0] == EOT {
        (Err(ErrorM::Aborted), 1)
    } else {
        (Ok(bytes[0]), 1)
    }
}

/// Reading bytes up to (not including) the next separator, which is
/// consumed as well.
pub open spec fn read_to_sep_spec(bytes: Seq<u8>) -> (Result<Seq<u8>, ErrorM>, int)
    decreases bytes.len(),
{
    if bytes.len() == 0 {
        (Err(ErrorM::EndOfInput), 0)
    } else if bytes[0] == EOT {
        (Err(ErrorM::Aborted), 1)
    } else if bytes[0] == SEPARATOR {
        (Ok(Seq::<u8>::empty()), 1)
    } else {
        let r = read_to_sep_spec(bytes.skip(1));
        (
            match r.0 {
                Ok(s) => Ok(seq![bytes[0]] + s),
                Err(e) => Err(e),
            },
            1 + r.1,
        )
    }
}

/// Discarding bytes until the stop byte has been consumed.
pub open spec fn skip_to_spec(bytes: Seq<u8>, stop: u8) -> (Result<(), ErrorM>, int)
    decreases bytes.len(),
{
    if bytes.len() == 0 {
        (Err(ErrorM::EndOfInput), 0)
    } else if bytes[0] == EOT {
        (Err(ErrorM::Aborted), 1)
    } else if bytes[0] == stop {
        (Ok(()), 1)
    } else {
        let r = skip_to_spec(bytes.skip(1), stop);
        (r.0, 1 + r.1)
    }
}

/// Reading one byte that must have a fixed value.
pub open spec fn expect_byte_spec(bytes: Seq<u8>, expected: u8) -> (Result<(), ErrorM>, int) {
    let rb = read_byte_spec(bytes);
    match rb.0 {
        Err(e) => (Err(e), rb.1),
        Ok(c) => if c == expected {
            (Ok(()), 1)
        } else {
            (Err(ErrorM::Syntax(SyntaxM::Expected(expected, c))), 1)
        },
    }
}

/// One tag group after its opening line-feed: label, value, checksum byte
/// and closing carriage-return, in that order.
pub open spec fn scan_group_spec(bytes: Seq<u8>) -> (Result<TagM, ErrorM>, int) {
    let rl = read_to_sep_spec(bytes);
    match rl.0 {
        Err(e) => (Err(e), rl.1),
        Ok(lbl) => {
            let rv = read_to_sep_spec(bytes.skip(rl.1));
            match rv.0 {
                Err(e) => (Err(e), rl.1 + rv.1),
                Ok(val) => {
                    let rc = read_byte_spec(bytes.skip(rl.1 + rv.1));
                    match rc.0 {
                        Err(e) => (Err(e), rl.1 + rv.1 + rc.1),
                        Ok(ck) => {
                            if ck != checksum_spec(lbl, val) {
                                (Err(ErrorM::Checksum), rl.1 + rv.1 + 1)
                            } else {
                                match decode_tag(lbl, val) {
                                    Err(e) => (Err(e), rl.1 + rv.1 + 1),
                                    Ok(tag) => {
                                        let re = read_byte_spec(bytes.skip(rl.1 + rv.1 + 1));
                                        match re.0 {
                                            Err(e) => (Err(e), rl.1 + rv.1 + 1 + re.1),
                                            Ok(c2) => {
                                                if c2 != CR {
                                                    (
                                                        Err(ErrorM::Syntax(SyntaxM::Expected(CR, c2))),
                                                        rl.1 + rv.1 + 2,
                                                    )
                                                } else {
                                                    (Ok(tag), rl.1 + rv.1 + 2)
                                                }
                                            },
                                        }
                                    },
                                }
                            }
                        },
                    }
                },
            }
        },
    }
}

/// How many bytes `read_to_sep_spec` consumes: never more than the stream
/// holds, and at least one when the stream is not empty.
pub proof fn lemma_read_to_sep_bounds(bytes: Seq<u8>)
    ensures
        0 <= read_to_sep_spec(bytes).1 <= bytes.len(),
        bytes.len() > 0 ==> read_to_sep_spec(bytes).1 >= 1,
    decreases bytes.len(),
{
    if bytes.len() == 0 || bytes[0] == EOT || bytes[0] == SEPARATOR {
    } else {
        lemma_read_to_sep_bounds(bytes.skip(1));
    }
}

/// How many bytes `skip_to_spec` consumes.
pub proof fn lemma_skip_to_bounds(bytes: Seq<u8>, stop: u8)
    ensures
        0 <= skip_to_spec(bytes, stop).1 <= bytes.len(),
        bytes.len() > 0 ==> skip_to_spec(bytes, stop).1 >= 1,
    decreases bytes.len(),
{
    if bytes.len() == 0 || bytes[0] == EOT || bytes[0] == stop {
    } else {
        lemma_skip_to_bounds(bytes.skip(1), stop);
    }
}

/// How many bytes `scan_group_spec` consumes.
pub proof fn lemma_scan_group_bounds(bytes: Seq<u8>)
    ensures
        0 <= scan_group_spec(bytes).1 <= bytes.len(),
{
    lemma_read_to_sep_bounds(bytes);
    let rl = read_to_sep_spec(bytes);
    if rl.0 is Ok {
        lemma_read_to_sep_bounds(bytes.skip(rl.1));
    }
}

/// The tag groups of one frame, up to and including the end-of-frame
/// marker.
pub open spec fn scan_groups_spec(bytes: Seq<u8>) -> (Result<Seq<TagM>, ErrorM>, int)
    decreases bytes.len(),
    via scan_groups_spec_dec
{
    if bytes.len() == 0 {
        (Err(ErrorM::EndOfInput), 0)
    } else if bytes[0] == EOT {
        (Err(ErrorM::Aborted), 1)
    } else if bytes[0] == ETX {
        (Ok(Seq::<TagM>::empty()), 1)
    } else if bytes[0] != LF {
        (Err(ErrorM::Syntax(SyntaxM::Expected(LF, bytes[0]))), 1)
    } else {
        let g = scan_group_spec(bytes.skip(1));
        match g.0 {
            Err(e) => (Err(e), 1 + g.1),
            Ok(tag) => {
                let r = scan_groups_spec(bytes.skip(1 + g.1));
                (
                    match r.0 {
                        Ok(tags) => Ok(seq![tag] + tags),
                        Err(e) => Err(e),
                    },
                    1 + g.1 + r.1,
                )
            },
        }
    }
}

#[via_fn]
proof fn scan_groups_spec_dec(bytes: Seq<u8>) {
    if bytes.len() > 0 && bytes[0] != EOT && bytes[0] != ETX && bytes[0] == LF {
        lemma_scan_group_bounds(bytes.skip(1));
    }
}

/// One whole scan: synchronize on the start-of-frame marker, then decode
/// the frame's groups.
pub open spec fn scan_frame_spec(bytes: Seq<u8>) -> (Result<Seq<TagM>, ErrorM>, int) {
    let rs = skip_to_spec(bytes, STX);
    match rs.0 {
        Err(e) => (Err(e), rs.1),
        Ok(u) => {
            let rg = scan_groups_spec(bytes.skip(rs.1));
            (rg.0, rs.1 + rg.1)
        },
    }
}

/// How many bytes one whole scan consumes.
pub proof fn lemma_scan_frame_bounds(bytes: Seq<u8>)
    ensures
        0 <= scan_frame_spec(bytes).1 <= bytes.len(),
    decreases bytes.len(),
{
    lemma_skip_to_bounds(bytes, STX);
    let rs = skip_to_spec(bytes, STX);
    if rs.0 is Ok {
        lemma_scan_groups_bounds(bytes.skip(rs.1));
    }
}

/// Model of the extracted record: every mandatory field of the
/// "Heures Creuses" snapshot, and the over-current alert flag.
pub ghost struct InfoM {
    pub periode: Seq<char>,
    pub hc: i32,
    pub hp: i32,
    pub iinst: i32,
    pub papp: i32,
    pub alerte: bool,
}

/// Model of the extraction accumulator: one optional slot per mandatory
/// field, filled while walking the frame's tags.
pub ghost struct BuilderM {
    pub periode: Option<Seq<char>>,
    pub hc: Option<i32>,
    pub hp: Option<i32>,
    pub iinst: Option<i32>,
    pub papp: Option<i32>,
    pub alerte: bool,
}

/// The empty accumulator.
pub open spec fn builder_empty() -> BuilderM {
    BuilderM {
        periode: None,
        hc: None,
        hp: None,
        iinst: None,
        papp: None,
        alerte: false,
    }
}

/// One step of the extraction pass. A period tag outside the two periods
/// of this plan is a hard failure; a repeated tag overwrites the earlier
/// value; the mere presence of an over-current warning raises the alert.
pub open spec fn extract_step(st: BuilderM, t: TagM) -> Result<BuilderM, ErrorM> {
    match t {
        TagM::Ptec(p) => match p {
            PeriodeM::HeuresPleines => Ok(BuilderM { periode: Some("HP"@), ..st }),
            PeriodeM::HeuresCreuses => Ok(BuilderM { periode: Some("HC"@), ..st }),
            _ => Err(ErrorM::Syntax(SyntaxM::UnexpectedPeriode(p))),
        },
        TagM::Hchc(v) => Ok(BuilderM { hc: Some(v), ..st }),
        TagM::Hchp(v) => Ok(BuilderM { hp: Some(v), ..st }),
        TagM::Iinst(v) => Ok(BuilderM { iinst: Some(v), ..st }),
        TagM::Papp(v) => Ok(BuilderM { papp: Some(v), ..st }),
        TagM::Adps(v) => Ok(BuilderM { alerte: true, ..st }),
        _ => Ok(st),
    }
}

/// The extraction pass over a frame's tags, in order.
pub open spec fn extract_fold(st: BuilderM, tags: Seq<TagM>) -> Result<BuilderM, ErrorM>
    decreases tags.len(),
{
    if tags.len() == 0 {
        Ok(st)
    } else {
        match extract_step(st, tags[0]) {
            Ok(st2) => extract_fold(st2, tags.skip(1)),
            Err(e) => Err(e),
        }
    }
}

/// The finalize step: either every mandatory field was seen, or the first
/// missing one (in a fixed order) is named.
pub open spec fn finalize_spec(st: BuilderM) -> Result<InfoM, ErrorM> {
    if st.periode is None {
        Err(ErrorM::MissingField(Field::Periode))
    } else if st.hc is None {
        Err(ErrorM::MissingField(Field::HeuresCreuses))
    } else if st.hp is None {
        Err(ErrorM::MissingField(Field::HeuresPleines))
    } else if st.iinst is None {
        Err(ErrorM::MissingField(Field::IntensiteInstantanee))
    } else if st.papp is None {
        Err(ErrorM::MissingField(Field::PuissanceApparente))
    } else {
        Ok(
            InfoM {
                periode: st.periode->0,
                hc: st.hc->0,
                hp: st.hp->0,
                iinst: st.iinst->0,
                papp: st.papp->0,
                alerte: st.alerte,
            },
        )
    }
}

/// Extraction of the record from one decoded frame: a single pass over the
/// tags, then the completeness check.
pub open spec fn extract_spec(tags: Seq<TagM>) -> Result<InfoM, ErrorM> {
    match extract_fold(builder_empty(), tags) {
        Ok(st) => finalize_spec(st),
        Err(e) => Err(e),
    }
}

/// How many bytes `scan_groups_spec` consumes.
pub proof fn lemma_scan_groups_bounds(bytes: Seq<u8>)
    ensures
        0 <= scan_groups_spec(bytes).1 <= bytes.len(),
    decreases bytes.len(),
{
    if bytes.len() > 0 && bytes[0] != EOT && bytes[0] != ETX && bytes[0] == LF {
        lemma_scan_group_bounds(bytes.skip(1));
        let g = scan_group_spec(bytes.skip(1));
        if g.0 is Ok {
            lemma_scan_groups_bounds(bytes.skip(1 + g.1));
        }
    }
}

/// The extraction pass over a concatenation: fold the first part, then,
/// unless it failed, fold the second from where the first left off.
pub proof fn lemma_extract_fold_concat(st: BuilderM, a: Seq<TagM>, b: Seq<TagM>)
    ensures
        extract_fold(st, a + b) == (match extract_fold(st, a) {
            Ok(s2) => extract_fold(s2, b),
            Err(e) => Err::<BuilderM, ErrorM>(e),
        }),
    decreases a.len(),
{
    if a.len() == 0 {
        assert(a + b =~= b);
    } else {
        assert((a + b)[0] == a[0]);
        assert((a + b).skip(1) =~= a.skip(1) + b);
        match extract_step(st, a[0]) {
            Ok(s2) => {
                lemma_extract_fold_concat(s2, a.skip(1), b);
            },
            Err(e) => {},
        }
    }
}

/// The extraction pass can fail only on an out-of-plan period tag: its
/// error is always a syntax error.
pub proof fn lemma_extract_fold_err_kind(st: BuilderM, tags: Seq<TagM>)
    ensures
        extract_fold(st, tags) is Err ==> extract_fold(st, tags)->Err_0 is Syntax,
    decreases tags.len(),
{
    if tags.len() > 0 {
        match extract_step(st, tags[0]) {
            Ok(s2) => {
                lemma_extract_fold_err_kind(s2, tags.skip(1));
            },
            Err(e) => {},
        }
    }
}

/// Extraction reports only a syntax error or a missing mandatory field:
/// never an input/output condition of the byte source.
pub proof fn lemma_extract_spec_err_kind(tags: Seq<TagM>)
    ensures
        extract_spec(tags) is Err ==> (extract_spec(tags)->Err_0 is Syntax || extract_spec(
            tags,
        )->Err_0 is MissingField),
{
    lemma_extract_fold_err_kind(builder_empty(), tags);
}

} // verus!
