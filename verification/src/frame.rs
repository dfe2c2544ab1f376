//! Low level Teleinfo frame scanning: byte sources, checksum arithmetic,
//! tag decoding and the frame scanner itself.

use crate::model::all_digits;
use crate::model::checksum_spec;
use crate::model::decode_tag;
use crate::model::digits_to_i32;
use crate::model::digits_value;
use crate::model::lbl_adco;
use crate::model::lbl_adps;
use crate::model::lbl_base;
use crate::model::lbl_hchc;
use crate::model::lbl_hchp;
use crate::model::lbl_hhphc;
use crate::model::lbl_iinst;
use crate::model::lbl_imax;
use crate::model::lbl_isousc;
use crate::model::lbl_motdetat;
use crate::model::lbl_optarif;
use crate::model::lbl_papp;
use crate::model::lbl_ptec;
use crate::model::val_base;
use crate::model::val_ejp;
use crate::model::val_hc;
use crate::model::val_hp;
use crate::model::val_th;
use crate::model::is_digit;
use crate::model::parse_i32_spec;
use crate::model::expect_byte_spec;
use crate::model::read_byte_spec;
use crate::model::read_to_sep_spec;
use crate::model::scan_frame_spec;
use crate::model::scan_group_spec;
use crate::model::scan_groups_spec;
use crate::model::skip_to_spec;
use crate::model::sum_bytes;
use crate::model::ErrorM;
use crate::model::Field;
use crate::model::OptionM;
use crate::model::PeriodeM;
use crate::model::SyntaxM;
use crate::model::TagM;
use crate::model::CR;
use crate::model::EOT;
use crate::model::ETX;
use crate::model::LF;
use crate::model::SEPARATOR;
use crate::model::STX;
use vstd::prelude::*;

verus! {

/// A lower-level input/output error, carried through unchanged.
/// Relies on std::io::Error only as an opaque value: nothing of the
/// library's logic reads it.
#[verifier::external_type_specification]
#[verifier::external_body]
pub struct ExIoError(std::io::Error);

/// The subscribed tariff option.
#[derive(Debug)]
pub enum OptionTarifaire {
    Base,
    HC,
    EJP,
    UNKNOWN(Vec<u8>),
}

impl View for OptionTarifaire {
    type V = OptionM;

    open spec fn view(&self) -> OptionM {
        match self {
            OptionTarifaire::Base => OptionM::Base,
            OptionTarifaire::HC => OptionM::HeuresCreuses,
            OptionTarifaire::EJP => OptionM::Ejp,
            OptionTarifaire::UNKNOWN(s) => OptionM::Unknown(s@),
        }
    }
}

/// The current period for the frame. Valid values depend on the
/// subscribed plan.
#[derive(Debug)]
pub enum PeriodeTarifaire {
    /// Toutes Heures
    TH,
    /// Heures Creuses
    HC,
    /// Heures Pleines
    HP,
    /// Another, unhandled period
    UNKNOWN(Vec<u8>),
}

impl View for PeriodeTarifaire {
    type V = PeriodeM;

    open spec fn view(&self) -> PeriodeM {
        match self {
            PeriodeTarifaire::TH => PeriodeM::ToutesHeures,
            PeriodeTarifaire::HC => PeriodeM::HeuresCreuses,
            PeriodeTarifaire::HP => PeriodeM::HeuresPleines,
            PeriodeTarifaire::UNKNOWN(s) => PeriodeM::Unknown(s@),
        }
    }
}

/// The different tags that can compose a frame. Raw text payloads hold the
/// field's bytes as they stood on the wire.
#[derive(Debug)]
pub enum Tag {
    /// Adresse du compteur
    ADCO(Vec<u8>),
    /// Option tarifaire choisie
    OPTARIF(OptionTarifaire),
    /// Intensité souscrite
    ISOUSC(i32),
    /// Index option Base
    BASE(i32),
    /// Index Heures Creuses
    HCHC(i32),
    /// Index Heures Pleines
    HCHP(i32),
    /// Période tarifaire en cours
    PTEC(PeriodeTarifaire),
    /// Intensité instantanée
    IINST(i32),
    /// Avertissement de dépassement de puissance souscrite
    ADPS(i32),
    /// Intensité maximale appelée
    IMAX(i32),
    /// Puissance apparente
    PAPP(i32),
    /// Horaire Heures Pleines Heures Creuses
    HHPHC(u8),
    /// Mot d'état du compteur
    MOTDETAT(Vec<u8>),
    /// Groupe d'information inconnu ou non géré
    UNKNOWN(Vec<u8>, Vec<u8>),
}

impl View for Tag {
    type V = TagM;

    open spec fn view(&self) -> TagM {
        match self {
            Tag::ADCO(s) => TagM::Adco(s@),
            Tag::OPTARIF(o) => TagM::Optarif(o@),
            Tag::ISOUSC(n) => TagM::Isousc(*n),
            Tag::BASE(n) => TagM::Base(*n),
            Tag::HCHC(n) => TagM::Hchc(*n),
            Tag::HCHP(n) => TagM::Hchp(*n),
            Tag::PTEC(p) => TagM::Ptec(p@),
            Tag::IINST(n) => TagM::Iinst(*n),
            Tag::ADPS(n) => TagM::Adps(*n),
            Tag::IMAX(n) => TagM::Imax(*n),
            Tag::PAPP(n) => TagM::Papp(*n),
            Tag::HHPHC(c) => TagM::Hhphc(*c),
            Tag::MOTDETAT(s) => TagM::Motdetat(s@),
            Tag::UNKNOWN(l, v) => TagM::Unknown(l@, v@),
        }
    }
}

/// The way in which a group or frame was malformed.
#[derive(Debug)]
pub enum FrameSyntax {
    /// One byte was required (first payload) but another was read (second).
    Expected(u8, u8),
    /// A numeric field whose raw text is not a base-10 signed 32-bit value.
    NumberFormat(Vec<u8>),
    /// The schedule-marker tag with an empty value.
    EmptyValue,
    /// A period tag outside the two periods of this tariff plan.
    UnexpectedPeriode(PeriodeTarifaire),
}

impl View for FrameSyntax {
    type V = SyntaxM;

    open spec fn view(&self) -> SyntaxM {
        match self {
            FrameSyntax::Expected(e, f) => SyntaxM::Expected(*e, *f),
            FrameSyntax::NumberFormat(s) => SyntaxM::NumberFormat(s@),
            FrameSyntax::EmptyValue => SyntaxM::EmptyValue,
            FrameSyntax::UnexpectedPeriode(p) => SyntaxM::UnexpectedPeriode(p@),
        }
    }
}

/// Possible fatal or non-fatal errors when reading frames from the line.
#[derive(Debug)]
pub enum TeleinfoError {
    /// The byte source is exhausted.
    EndOfFile,
    /// An input/output error was encountered.
    IoError(std::io::Error),
    /// The transmission was interrupted, for example because of an external
    /// reading of the meter's current value. Reading a new frame can be
    /// tried.
    EndOfTransmission,
    /// One tag or frame had an unexpected form, maybe because of a
    /// transmission error. Try reading a new frame.
    FrameError(FrameSyntax),
    /// One tag had a wrong checksum, maybe because of a transmission error.
    /// Try reading a new frame.
    ChecksumError,
    /// A syntactically valid frame lacked a field required by the record.
    MissingField(Field),
}

impl View for TeleinfoError {
    type V = ErrorM;

    open spec fn view(&self) -> ErrorM {
        match self {
            TeleinfoError::EndOfFile => ErrorM::EndOfInput,
            TeleinfoError::IoError(e) => ErrorM::Io,
            TeleinfoError::EndOfTransmission => ErrorM::Aborted,
            TeleinfoError::FrameError(s) => ErrorM::Syntax(s@),
            TeleinfoError::ChecksumError => ErrorM::Checksum,
            TeleinfoError::MissingField(f) => ErrorM::MissingField(*f),
        }
    }
}

impl From<std::io::Error> for TeleinfoError {
    fn from(err: std::io::Error) -> TeleinfoError {
        TeleinfoError::IoError(err)
    }
}

impl vstd::std_specs::convert::FromSpecImpl<std::io::Error> for TeleinfoError {
    open spec fn obeys_from_spec() -> bool {
        true
    }

    open spec fn from_spec(err: std::io::Error) -> TeleinfoError {
        TeleinfoError::IoError(err)
    }
}

/// What one read from a byte source yields: one ordinary byte, the end of
/// the input, or a lower-level failure.
#[derive(Debug)]
pub enum ReadOutcome {
    Byte(u8),
    EndOfInput,
    Failure(std::io::Error),
}

/// An abstract capability that yields raw bytes one at a time, so that the
/// scanner is decoupled from any concrete transport.
pub trait ByteSource {
    /// The bytes the source has yet to deliver.
    spec fn bytes(&self) -> Seq<u8>;

    /// Whether reading can fail with a lower-level input/output error. A
    /// source for which this is false never yields a failure, so on it the
    /// scanner's outcome is fixed entirely by the bytes.
    spec fn fallible(&self) -> bool;

    /// Yields the next byte of the stream, or reports that the input is
    /// exhausted, or (on a fallible source only) fails without consuming
    /// anything.
    fn read_one(&mut self) -> (r: ReadOutcome)
        ensures
            final(self).fallible() == old(self).fallible(),
            match r {
                ReadOutcome::Byte(b) => old(self).bytes().len() > 0 && b == old(self).bytes()[0]
                    && final(self).bytes() == old(self).bytes().skip(1),
                ReadOutcome::EndOfInput => old(self).bytes().len() == 0 && final(self).bytes()
                    == old(self).bytes(),
                ReadOutcome::Failure(e) => old(self).fallible() && final(self).bytes() == old(
                    self,
                ).bytes(),
            },
    ;
}

/// A byte source over an in-memory buffer.
pub struct MemSource {
    data: Vec<u8>,
    pos: usize,
}

impl MemSource {
    /// Wraps a buffer as a byte source positioned at its start.
    pub fn new(data: Vec<u8>) -> (r: MemSource)
        ensures
            r.bytes() == data@,
            !r.fallible(),
    {
        let r = MemSource { data, pos: 0 };
        proof {
            assert(r.bytes() =~= r.data@);
        }
        r
    }
}

impl ByteSource for MemSource {
    closed spec fn bytes(&self) -> Seq<u8> {
        if self.pos <= self.data@.len() {
            self.data@.skip(self.pos as int)
        } else {
            Seq::<u8>::empty()
        }
    }

    closed spec fn fallible(&self) -> bool {
        false
    }

    fn read_one(&mut self) -> (r: ReadOutcome) {
        if self.pos < self.data.len() {
            let b = self.data[self.pos];
            self.pos = self.pos + 1;
            proof {
                assert(self.bytes() =~= old(self).bytes().skip(1));
            }
            ReadOutcome::Byte(b)
        } else {
            ReadOutcome::EndOfInput
        }
    }
}

/// Reads one byte, reporting the abort marker and the end of the input as
/// the distinct recoverable errors they are.
pub fn read_char<S: ByteSource>(input: &mut S) -> (r: Result<u8, TeleinfoError>)
    ensures
        final(input).fallible() == old(input).fallible(),
        ({
            let s = read_byte_spec(old(input).bytes());
            match r {
                Ok(b) => s.0 == Ok::<u8, ErrorM>(b) && final(input).bytes() == old(
                    input,
                ).bytes().skip(s.1),
                Err(e) => match e {
                    TeleinfoError::IoError(_) => old(input).fallible() && final(input).bytes()
                        == old(input).bytes(),
                    _ => s.0 == Err::<u8, ErrorM>(e@) && final(input).bytes() == old(
                        input,
                    ).bytes().skip(s.1),
                },
            }
        }),
{
    match input.read_one() {
        ReadOutcome::Byte(b) => {
            if b == EOT {
                Err(TeleinfoError::EndOfTransmission)
            } else {
                Ok(b)
            }
        },
        ReadOutcome::EndOfInput => {
            proof {
                assert(input.bytes() =~= old(input).bytes().skip(0));
            }
            Err(TeleinfoError::EndOfFile)
        },
        ReadOutcome::Failure(e) => Err(TeleinfoError::IoError(e)),
    }
}

/// Reads one byte and requires it to have a fixed value.
pub fn expect_char<S: ByteSource>(input: &mut S, expected: u8) -> (r: Result<(), TeleinfoError>)
    ensures
        final(input).fallible() == old(input).fallible(),
        ({
            let s = expect_byte_spec(old(input).bytes(), expected);
            match r {
                Ok(u) => s.0 == Ok::<(), ErrorM>(()) && final(input).bytes() == old(
                    input,
                ).bytes().skip(s.1),
                Err(e) => match e {
                    TeleinfoError::IoError(_) => old(input).fallible() && final(input).bytes()
                        == old(input).bytes(),
                    _ => s.0 == Err::<(), ErrorM>(e@) && final(input).bytes() == old(
                        input,
                    ).bytes().skip(s.1),
                },
            }
        }),
{
    match read_char(input) {
        Ok(c) => {
            if c != expected {
                Err(TeleinfoError::FrameError(FrameSyntax::Expected(expected, c)))
            } else {
                Ok(())
            }
        },
        Err(e) => Err(e),
    }
}

/// Equality of two byte slices.
pub fn slice_eq(a: &[u8], b: &[u8]) -> (r: bool)
    ensures
        r == (a@ == b@),
{
    if a.len() != b.len() {
        proof {
            assert(a@.len() != b@.len());
        }
        return false;
    }
    let n = a.len();
    let mut i: usize = 0;
    while i < n
        invariant
            n == a@.len() == b@.len(),
            0 <= i <= n,
            forall|j: int| 0 <= j < i ==> a@[j] == b@[j],
        decreases n - i,
    {
        if a[i] != b[i] {
            return false;
        }
        i = i + 1;
    }
    proof {
        assert(a@ =~= b@);
    }
    true
}

/// Computes the checksum of one tag group from its label and value bytes.
pub fn checksum(lbl: &[u8], val: &[u8]) -> (r: u8)
    ensures
        r == checksum_spec(lbl@, val@),
{
    let mut sum: u8 = 0;
    let mut i: usize = 0;
    while i < lbl.len()
        invariant
            0 <= i <= lbl@.len(),
            sum == sum_bytes(lbl@.take(i as int)),
        decreases lbl@.len() - i,
    {
        proof {
            assert(lbl@.take(i + 1).drop_last() =~= lbl@.take(i as int));
            assert(lbl@.take(i + 1).last() == lbl@[i as int]);
        }
        sum = sum.wrapping_add(lbl[i]);
        i = i + 1;
    }
    proof {
        assert(lbl@.take(lbl@.len() as int) =~= lbl@);
    }
    sum = sum.wrapping_add(SEPARATOR);
    proof {
        assert(lbl@.push(SEPARATOR).drop_last() =~= lbl@);
        assert(sum == sum_bytes(lbl@.push(SEPARATOR)));
    }
    let mut j: usize = 0;
    while j < val.len()
        invariant
            0 <= j <= val@.len(),
            sum == sum_bytes(lbl@.push(SEPARATOR) + val@.take(j as int)),
        decreases val@.len() - j,
    {
        proof {
            assert((lbl@.push(SEPARATOR) + val@.take(j + 1)).drop_last() =~= lbl@.push(SEPARATOR)
                + val@.take(j as int));
            assert((lbl@.push(SEPARATOR) + val@.take(j + 1)).last() == val@[j as int]);
        }
        sum = sum.wrapping_add(val[j]);
        j = j + 1;
    }
    proof {
        assert(lbl@.push(SEPARATOR) + val@.take(val@.len() as int) =~= lbl@.push(SEPARATOR)
            + val@);
    }
    let masked = sum & 0x3f;
    proof {
        assert(sum & 0x3f <= 0x3f) by (bit_vector);
    }
    masked + 0x20
}

/// Discards bytes until the stop byte has been read (inclusive).
pub fn skip_to<S: ByteSource>(input: &mut S, stop_char: u8) -> (r: Result<(), TeleinfoError>)
    ensures
        final(input).fallible() == old(input).fallible(),
        ({
            let s = skip_to_spec(old(input).bytes(), stop_char);
            match r {
                Ok(u) => s.0 == Ok::<(), ErrorM>(()) && final(input).bytes() == old(
                    input,
                ).bytes().skip(s.1),
                Err(e) => match e {
                    TeleinfoError::IoError(_) => old(input).fallible() && exists|k: int|
                        0 <= k <= old(input).bytes().len() && final(input).bytes() == old(
                            input,
                        ).bytes().skip(k),
                    _ => s.0 == Err::<(), ErrorM>(e@) && final(input).bytes() == old(
                        input,
                    ).bytes().skip(s.1),
                },
            }
        }),
{
    let ghost orig = input.bytes();
    let ghost mut consumed: int = 0;
    loop
        invariant
            orig == old(input).bytes(),
            input.fallible() == old(input).fallible(),
            0 <= consumed <= orig.len(),
            input.bytes() == orig.skip(consumed),
            skip_to_spec(orig, stop_char).0 == skip_to_spec(input.bytes(), stop_char).0,
            skip_to_spec(orig, stop_char).1 == consumed + skip_to_spec(input.bytes(), stop_char).1,
        decreases input.bytes().len(),
    {
        match read_char(input) {
            Ok(c) => {
                proof {
                    assert(orig.skip(consumed).skip(1) =~= orig.skip(consumed + 1));
                    consumed = consumed + 1;
                }
                if c == stop_char {
                    return Ok(());
                }
            },
            Err(e) => {
                proof {
                    if consumed < orig.len() {
                        assert(orig.skip(consumed).skip(1) =~= orig.skip(consumed + 1));
                    }
                }
                return Err(e);
            },
        }
    }
}

/// Reads bytes up to (not including) the next separator, which is consumed
/// as well.
pub fn read_to_sep<S: ByteSource>(input: &mut S) -> (r: Result<Vec<u8>, TeleinfoError>)
    ensures
        final(input).fallible() == old(input).fallible(),
        ({
            let s = read_to_sep_spec(old(input).bytes());
            match r {
                Ok(v) => s.0 == Ok::<Seq<u8>, ErrorM>(v@) && final(input).bytes() == old(
                    input,
                ).bytes().skip(s.1),
                Err(e) => match e {
                    TeleinfoError::IoError(_) => old(input).fallible() && exists|k: int|
                        0 <= k <= old(input).bytes().len() && final(input).bytes() == old(
                            input,
                        ).bytes().skip(k),
                    _ => s.0 == Err::<Seq<u8>, ErrorM>(e@) && final(input).bytes() == old(
                        input,
                    ).bytes().skip(s.1),
                },
            }
        }),
{
    let ghost orig = input.bytes();
    let mut result: Vec<u8> = Vec::new();
    loop
        invariant
            orig == old(input).bytes(),
            input.fallible() == old(input).fallible(),
            0 <= result@.len() <= orig.len(),
            input.bytes() == orig.skip(result@.len() as int),
            read_to_sep_spec(orig).0 == (match read_to_sep_spec(input.bytes()).0 {
                Ok(t) => Ok::<Seq<u8>, ErrorM>(result@ + t),
                Err(e) => Err::<Seq<u8>, ErrorM>(e),
            }),
            read_to_sep_spec(orig).1 == result@.len() + read_to_sep_spec(input.bytes()).1,
        decreases input.bytes().len(),
    {
        let ghost consumed = result@.len() as int;
        match read_char(input) {
            Ok(c) => {
                proof {
                    assert(orig.skip(consumed).skip(1) =~= orig.skip(consumed + 1));
                }
                if c == SEPARATOR {
                    proof {
                        assert(result@ + Seq::<u8>::empty() =~= result@);
                    }
                    return Ok(result);
                }
                let ghost res0 = result@;
                result.push(c);
                proof {
                    let cur = orig.skip(consumed);
                    assert(cur.len() > 0 && cur[0] == c && c != SEPARATOR);
                    assert(read_to_sep_spec(cur).0 == (match read_to_sep_spec(cur.skip(1)).0 {
                        Ok(s2) => Ok::<Seq<u8>, ErrorM>(seq![c] + s2),
                        Err(e2) => Err::<Seq<u8>, ErrorM>(e2),
                    }));
                    if read_to_sep_spec(cur.skip(1)).0 is Ok {
                        let s2 = read_to_sep_spec(cur.skip(1)).0->Ok_0;
                        assert(res0 + (seq![c] + s2) =~= result@ + s2);
                    }
                }
            },
            Err(e) => {
                proof {
                    if consumed < orig.len() {
                        assert(orig.skip(consumed).skip(1) =~= orig.skip(consumed + 1));
                    }
                }
                return Err(e);
            },
        }
    }
}

/// The value of an all-digit sequence is never negative.
proof fn lemma_digits_value_nonneg(s: Seq<u8>)
    requires
        all_digits(s),
    ensures
        digits_value(s) >= 0,
    decreases s.len(),
{
    if s.len() > 0 {
        assert forall|i: int| 0 <= i < s.drop_last().len() implies is_digit(
            #[trigger] s.drop_last()[i],
        ) by {
            assert(s.drop_last()[i] == s[i]);
        }
        lemma_digits_value_nonneg(s.drop_last());
    }
}

/// Appending digits never shrinks the value: every prefix of an all-digit
/// sequence denotes at most the value of the whole.
proof fn lemma_digits_prefix_le(s: Seq<u8>, i: int)
    requires
        all_digits(s),
        0 <= i <= s.len(),
    ensures
        digits_value(s.take(i)) <= digits_value(s),
    decreases s.len() - i,
{
    if i == s.len() {
        assert(s.take(i) =~= s);
    } else {
        assert(s.take(i + 1).drop_last() =~= s.take(i));
        assert(s.take(i + 1).last() == s[i]);
        assert forall|j: int| 0 <= j < s.take(i).len() implies is_digit(
            #[trigger] s.take(i)[j],
        ) by {
            assert(s.take(i)[j] == s[j]);
        }
        lemma_digits_value_nonneg(s.take(i));
        assert(digits_value(s.take(i)) <= digits_value(s.take(i + 1)));
        lemma_digits_prefix_le(s, i + 1);
    }
}

/// Base-10 signed 32-bit parse of a raw field text.
pub fn parse_i32(s: &[u8]) -> (r: Option<i32>)
    ensures
        r == parse_i32_spec(s@),
{
    let mut start: usize = 0;
    let mut negative: bool = false;
    if s.len() > 0 && s[0] == 0x2b {
        start = 1;
    } else if s.len() > 0 && s[0] == 0x2d {
        start = 1;
        negative = true;
    }
    let ghost digits = s@.skip(start as int);
    proof {
        assert(s@.skip(0) =~= s@);
        assert(parse_i32_spec(s@) == digits_to_i32(digits, negative));
    }
    if start >= s.len() {
        return None;
    }
    let limit: u32 = if negative {
        0x8000_0000
    } else {
        0x7fff_ffff
    };
    let mut acc: u32 = 0;
    let mut j: usize = start;
    while j < s.len()
        invariant
            start <= j <= s@.len(),
            start < s@.len(),
            start == 0 || start == 1,
            digits == s@.skip(start as int),
            parse_i32_spec(s@) == digits_to_i32(digits, negative),
            limit == (if negative {
                0x8000_0000u32
            } else {
                0x7fff_ffffu32
            }),
            all_digits(digits.take(j - start)),
            acc as int == digits_value(digits.take(j - start)),
            acc <= limit,
        decreases s@.len() - j,
    {
        let b = s[j];
        proof {
            assert(digits[j - start] == s@[j as int]);
            assert(digits.take(j - start + 1).drop_last() =~= digits.take(j - start));
            assert(digits.take(j - start + 1).last() == digits[j - start]);
        }
        if b < 0x30 || b > 0x39 {
            proof {
                assert(!is_digit(digits[j - start]));
                assert(!all_digits(digits));
            }
            return None;
        }
        let d: u32 = (b - 0x30) as u32;
        let wide: u64 = acc as u64 * 10 + d as u64;
        proof {
            assert(wide as int == digits_value(digits.take(j - start + 1)));
        }
        if wide > limit as u64 {
            proof {
                if all_digits(digits) {
                    lemma_digits_prefix_le(digits, j - start + 1);
                    assert(digits_value(digits) > limit);
                }
            }
            return None;
        }
        acc = wide as u32;
        j = j + 1;
    }
    proof {
        assert(digits.take(digits.len() as int) =~= digits);
        assert(digits.len() > 0);
    }
    if negative {
        if acc == 0x8000_0000 {
            Some(i32::MIN)
        } else {
            Some(-(acc as i32))
        }
    } else {
        Some(acc as i32)
    }
}

/// Decodes one raw (label, value) pair into a typed tag, or reports the
/// number-format or empty-value error of the offending field.
pub fn parse_tag(lbl: &[u8], val: &[u8]) -> (r: Result<Tag, TeleinfoError>)
    ensures
        match r {
            Ok(t) => decode_tag(lbl@, val@) == Ok::<TagM, ErrorM>(t@),
            Err(e) => decode_tag(lbl@, val@) == Err::<TagM, ErrorM>(e@),
        },
{
    let pat_adco: [u8; 4] = [0x41, 0x44, 0x43, 0x4f];
    proof {
        assert(pat_adco@ =~= lbl_adco());
    }
    if slice_eq(lbl, pat_adco.as_slice()) {
        return Ok(Tag::ADCO(vstd::slice::slice_to_vec(val)));
    }
    let pat_optarif: [u8; 7] = [0x4f, 0x50, 0x54, 0x41, 0x52, 0x49, 0x46];
    proof {
        assert(pat_optarif@ =~= lbl_optarif());
    }
    if slice_eq(lbl, pat_optarif.as_slice()) {
        let pv_base: [u8; 4] = [0x42, 0x61, 0x73, 0x65];
        let pv_hc: [u8; 4] = [0x48, 0x43, 0x2e, 0x2e];
        let pv_ejp: [u8; 4] = [0x45, 0x4a, 0x50, 0x2e];
        proof {
            assert(pv_base@ =~= val_base());
            assert(pv_hc@ =~= val_hc());
            assert(pv_ejp@ =~= val_ejp());
        }
        let o = if slice_eq(val, pv_base.as_slice()) {
            OptionTarifaire::Base
        } else if slice_eq(val, pv_hc.as_slice()) {
            OptionTarifaire::HC
        } else if slice_eq(val, pv_ejp.as_slice()) {
            OptionTarifaire::EJP
        } else {
            OptionTarifaire::UNKNOWN(vstd::slice::slice_to_vec(val))
        };
        return Ok(Tag::OPTARIF(o));
    }
    let pat_isousc: [u8; 6] = [0x49, 0x53, 0x4f, 0x55, 0x53, 0x43];
    proof {
        assert(pat_isousc@ =~= lbl_isousc());
    }
    if slice_eq(lbl, pat_isousc.as_slice()) {
        return match parse_i32(val) {
            Some(n) => Ok(Tag::ISOUSC(n)),
            None => Err(
                TeleinfoError::FrameError(FrameSyntax::NumberFormat(vstd::slice::slice_to_vec(val))),
            ),
        };
    }
    let pat_base: [u8; 4] = [0x42, 0x41, 0x53, 0x45];
    proof {
        assert(pat_base@ =~= lbl_base());
    }
    if slice_eq(lbl, pat_base.as_slice()) {
        return match parse_i32(val) {
            Some(n) => Ok(Tag::BASE(n)),
            None => Err(
                TeleinfoError::FrameError(FrameSyntax::NumberFormat(vstd::slice::slice_to_vec(val))),
            ),
        };
    }
    let pat_hchc: [u8; 4] = [0x48, 0x43, 0x48, 0x43];
    proof {
        assert(pat_hchc@ =~= lbl_hchc());
    }
    if slice_eq(lbl, pat_hchc.as_slice()) {
        return match parse_i32(val) {
            Some(n) => Ok(Tag::HCHC(n)),
            None => Err(
                TeleinfoError::FrameError(FrameSyntax::NumberFormat(vstd::slice::slice_to_vec(val))),
            ),
        };
    }
    let pat_hchp: [u8; 4] = [0x48, 0x43, 0x48, 0x50];
    proof {
        assert(pat_hchp@ =~= lbl_hchp());
    }
    if slice_eq(lbl, pat_hchp.as_slice()) {
        return match parse_i32(val) {
            Some(n) => Ok(Tag::HCHP(n)),
            None => Err(
                TeleinfoError::FrameError(FrameSyntax::NumberFormat(vstd::slice::slice_to_vec(val))),
            ),
        };
    }
    let pat_ptec: [u8; 4] = [0x50, 0x54, 0x45, 0x43];
    proof {
        assert(pat_ptec@ =~= lbl_ptec());
    }
    if slice_eq(lbl, pat_ptec.as_slice()) {
        let pv_th: [u8; 4] = [0x54, 0x48, 0x2e, 0x2e];
        let pv_hc: [u8; 4] = [0x48, 0x43, 0x2e, 0x2e];
        let pv_hp: [u8; 4] = [0x48, 0x50, 0x2e, 0x2e];
        proof {
            assert(pv_th@ =~= val_th());
            assert(pv_hc@ =~= val_hc());
            assert(pv_hp@ =~= val_hp());
        }
        let p = if slice_eq(val, pv_th.as_slice()) {
            PeriodeTarifaire::TH
        } else if slice_eq(val, pv_hc.as_slice()) {
            PeriodeTarifaire::HC
        } else if slice_eq(val, pv_hp.as_slice()) {
            PeriodeTarifaire::HP
        } else {
            PeriodeTarifaire::UNKNOWN(vstd::slice::slice_to_vec(val))
        };
        return Ok(Tag::PTEC(p));
    }
    let pat_iinst: [u8; 5] = [0x49, 0x49, 0x4e, 0x53, 0x54];
    proof {
        assert(pat_iinst@ =~= lbl_iinst());
    }
    if slice_eq(lbl, pat_iinst.as_slice()) {
        return match parse_i32(val) {
            Some(n) => Ok(Tag::IINST(n)),
            None => Err(
                TeleinfoError::FrameError(FrameSyntax::NumberFormat(vstd::slice::slice_to_vec(val))),
            ),
        };
    }
    let pat_imax: [u8; 4] = [0x49, 0x4d, 0x41, 0x58];
    proof {
        assert(pat_imax@ =~= lbl_imax());
    }
    if slice_eq(lbl, pat_imax.as_slice()) {
        return match parse_i32(val) {
            Some(n) => Ok(Tag::IMAX(n)),
            None => Err(
                TeleinfoError::FrameError(FrameSyntax::NumberFormat(vstd::slice::slice_to_vec(val))),
            ),
        };
    }
    let pat_adps: [u8; 4] = [0x41, 0x44, 0x50, 0x53];
    proof {
        assert(pat_adps@ =~= lbl_adps());
    }
    if slice_eq(lbl, pat_adps.as_slice()) {
        return match parse_i32(val) {
            Some(n) => Ok(Tag::ADPS(n)),
            None => Err(
                TeleinfoError::FrameError(FrameSyntax::NumberFormat(vstd::slice::slice_to_vec(val))),
            ),
        };
    }
    let pat_papp: [u8; 4] = [0x50, 0x41, 0x50, 0x50];
    proof {
        assert(pat_papp@ =~= lbl_papp());
    }
    if slice_eq(lbl, pat_papp.as_slice()) {
        return match parse_i32(val) {
            Some(n) => Ok(Tag::PAPP(n)),
            None => Err(
                TeleinfoError::FrameError(FrameSyntax::NumberFormat(vstd::slice::slice_to_vec(val))),
            ),
        };
    }
    let pat_hhphc: [u8; 5] = [0x48, 0x48, 0x50, 0x48, 0x43];
    proof {
        assert(pat_hhphc@ =~= lbl_hhphc());
    }
    if slice_eq(lbl, pat_hhphc.as_slice()) {
        if val.len() == 0 {
            return Err(TeleinfoError::FrameError(FrameSyntax::EmptyValue));
        }
        return Ok(Tag::HHPHC(val[0]));
    }
    let pat_motdetat: [u8; 8] = [0x4d, 0x4f, 0x54, 0x44, 0x45, 0x54, 0x41, 0x54];
    proof {
        assert(pat_motdetat@ =~= lbl_motdetat());
    }
    if slice_eq(lbl, pat_motdetat.as_slice()) {
        return Ok(Tag::MOTDETAT(vstd::slice::slice_to_vec(val)));
    }
    Ok(Tag::UNKNOWN(vstd::slice::slice_to_vec(lbl), vstd::slice::slice_to_vec(val)))
}

/// Skipping twice is skipping once by the sum.
proof fn lemma_skip_skip(s: Seq<u8>, a: int, b: int)
    requires
        0 <= a,
        0 <= b,
        a + b <= s.len(),
    ensures
        s.skip(a).skip(b) == s.skip(a + b),
{
    assert(s.skip(a).skip(b) =~= s.skip(a + b));
}

/// A parsed and valid frame received from the TeleInfo line.
#[derive(Debug)]
pub struct Frame {
    pub tags: Vec<Tag>,
}

impl View for Frame {
    type V = Seq<TagM>;

    open spec fn view(&self) -> Seq<TagM> {
        self.tags@.map_values(|t: Tag| t@)
    }
}

impl Frame {
    fn new() -> (r: Frame)
        ensures
            r@ == Seq::<TagM>::empty(),
    {
        let r = Frame { tags: Vec::new() };
        proof {
            assert(r@ =~= Seq::<TagM>::empty());
        }
        r
    }

    /// Synchronizes on the next start-of-frame marker, then decodes one
    /// whole frame, group by group.
    pub fn next_frame<S: ByteSource>(input: &mut S) -> (r: Result<Frame, TeleinfoError>)
        ensures
            final(input).fallible() == old(input).fallible(),
            ({
                let s = scan_frame_spec(old(input).bytes());
                match r {
                    Ok(f) => s.0 == Ok::<Seq<TagM>, ErrorM>(f@) && final(input).bytes() == old(
                        input,
                    ).bytes().skip(s.1),
                    Err(e) => match e {
                        TeleinfoError::IoError(_) => old(input).fallible() && exists|k: int|
                            0 <= k <= old(input).bytes().len() && final(input).bytes() == old(
                                input,
                            ).bytes().skip(k),
                        _ => s.0 == Err::<Seq<TagM>, ErrorM>(e@) && final(input).bytes() == old(
                            input,
                        ).bytes().skip(s.1),
                    },
                }
            }),
    {
        let ghost orig = input.bytes();
        match skip_to(input, STX) {
            Ok(()) => (),
            Err(e) => {
                return Err(e);
            },
        }
        let ghost n0 = skip_to_spec(orig, STX).1;
        proof {
            crate::model::lemma_skip_to_bounds(orig, STX);
        }
        let r = read_frame(input);
        proof {
            let rest = orig.skip(n0);
            crate::model::lemma_scan_groups_bounds(rest);
            match r {
                Ok(ref f) => {
                    lemma_skip_skip(orig, n0, scan_groups_spec(rest).1);
                },
                Err(ref e) => {
                    match e {
                        TeleinfoError::IoError(_) => {
                            let k0 = choose|k0: int|
                                0 <= k0 <= rest.len() && input.bytes() == rest.skip(k0);
                            lemma_skip_skip(orig, n0, k0);
                            assert(0 <= n0 + k0 <= orig.len() && input.bytes() == orig.skip(
                                n0 + k0,
                            ));
                        },
                        _ => {
                            lemma_skip_skip(orig, n0, scan_groups_spec(rest).1);
                        },
                    }
                },
            }
        }
        r
    }
}

/// Decodes the groups of one frame, after its start marker, up to and
/// including the end-of-frame marker.
pub fn read_frame<S: ByteSource>(input: &mut S) -> (r: Result<Frame, TeleinfoError>)
    ensures
        final(input).fallible() == old(input).fallible(),
        ({
            let s = scan_groups_spec(old(input).bytes());
            match r {
                Ok(f) => s.0 == Ok::<Seq<TagM>, ErrorM>(f@) && final(input).bytes() == old(
                    input,
                ).bytes().skip(s.1),
                Err(e) => match e {
                    TeleinfoError::IoError(_) => old(input).fallible() && exists|k: int|
                        0 <= k <= old(input).bytes().len() && final(input).bytes() == old(
                            input,
                        ).bytes().skip(k),
                    _ => s.0 == Err::<Seq<TagM>, ErrorM>(e@) && final(input).bytes() == old(
                        input,
                    ).bytes().skip(s.1),
                },
            }
        }),
{
    let ghost orig = input.bytes();
    let mut frame = Frame::new();
    let ghost mut consumed: int = 0;
    loop
        invariant
            orig == old(input).bytes(),
            input.fallible() == old(input).fallible(),
            0 <= consumed <= orig.len(),
            input.bytes() == orig.skip(consumed),
            scan_groups_spec(orig).0 == (match scan_groups_spec(input.bytes()).0 {
                Ok(t) => Ok::<Seq<TagM>, ErrorM>(frame@ + t),
                Err(e) => Err::<Seq<TagM>, ErrorM>(e),
            }),
            scan_groups_spec(orig).1 == consumed + scan_groups_spec(input.bytes()).1,
        decreases input.bytes().len(),
    {
        let ghost cur = orig.skip(consumed);
        let c = match read_char(input) {
            Ok(c) => c,
            Err(e) => {
                proof {
                    if consumed < orig.len() {
                        lemma_skip_skip(orig, consumed, 1);
                    }
                }
                return Err(e);
            },
        };
        proof {
            lemma_skip_skip(orig, consumed, 1);
        }
        if c == ETX {
            proof {
                assert(frame@ + Seq::<TagM>::empty() =~= frame@);
            }
            return Ok(frame);
        }
        if c != LF {
            return Err(TeleinfoError::FrameError(FrameSyntax::Expected(LF, c)));
        }
        let ghost cur1 = cur.skip(1);
        proof {
            crate::model::lemma_read_to_sep_bounds(cur1);
        }
        let lbl = match read_to_sep(input) {
            Ok(v) => v,
            Err(e) => {
                proof {
                    let rl = read_to_sep_spec(cur1);
                    if !(e is IoError) {
                        lemma_skip_skip(orig, consumed + 1, rl.1);
                    } else {
                        let k0 = choose|k0: int|
                            0 <= k0 <= cur1.len() && input.bytes() == cur1.skip(k0);
                        lemma_skip_skip(orig, consumed + 1, k0);
                        assert(0 <= consumed + 1 + k0 <= orig.len() && input.bytes() == orig.skip(
                            consumed + 1 + k0,
                        ));
                    }
                }
                return Err(e);
            },
        };
        let ghost n1 = read_to_sep_spec(cur1).1;
        let ghost cur2 = cur1.skip(n1);
        proof {
            lemma_skip_skip(orig, consumed + 1, n1);
            crate::model::lemma_read_to_sep_bounds(cur2);
        }
        let val = match read_to_sep(input) {
            Ok(v) => v,
            Err(e) => {
                proof {
                    let rv = read_to_sep_spec(cur2);
                    if !(e is IoError) {
                        lemma_skip_skip(orig, consumed + 1 + n1, rv.1);
                    } else {
                        let k0 = choose|k0: int|
                            0 <= k0 <= cur2.len() && input.bytes() == cur2.skip(k0);
                        lemma_skip_skip(orig, consumed + 1 + n1, k0);
                        assert(0 <= consumed + 1 + n1 + k0 <= orig.len() && input.bytes()
                            == orig.skip(consumed + 1 + n1 + k0));
                    }
                }
                return Err(e);
            },
        };
        let ghost n2 = read_to_sep_spec(cur2).1;
        let ghost cur3 = cur2.skip(n2);
        proof {
            lemma_skip_skip(orig, consumed + 1 + n1, n2);
            lemma_skip_skip(cur1, n1, n2);
        }
        let ck = match read_char(input) {
            Ok(c) => c,
            Err(e) => {
                proof {
                    if consumed + 1 + n1 + n2 < orig.len() {
                        lemma_skip_skip(orig, consumed + 1 + n1 + n2, 1);
                    }
                }
                return Err(e);
            },
        };
        proof {
            lemma_skip_skip(orig, consumed + 1 + n1 + n2, 1);
            lemma_skip_skip(cur1, n1 + n2, 1);
        }
        let ghost cur4 = cur3.skip(1);
        if ck != checksum(lbl.as_slice(), val.as_slice()) {
            return Err(TeleinfoError::ChecksumError);
        }
        let tag = match parse_tag(lbl.as_slice(), val.as_slice()) {
            Ok(t) => t,
            Err(e) => {
                return Err(e);
            },
        };
        let ghost f0 = frame@;
        frame.tags.push(tag);
        proof {
            assert(frame@ =~= f0.push(tag@));
        }
        match expect_char(input, CR) {
            Ok(()) => (),
            Err(e) => {
                proof {
                    if consumed + 1 + n1 + n2 + 1 < orig.len() {
                        lemma_skip_skip(orig, consumed + 1 + n1 + n2 + 1, 1);
                    }
                    if n1 + n2 + 2 <= cur1.len() {
                        lemma_skip_skip(cur1, n1 + n2 + 1, 1);
                    }
                }
                return Err(e);
            },
        }
        proof {
            lemma_skip_skip(orig, consumed + 1 + n1 + n2 + 1, 1);
            lemma_skip_skip(cur1, n1 + n2 + 1, 1);
            lemma_skip_skip(cur, 1, n1 + n2 + 2);
            let g = scan_group_spec(cur1);
            assert(g.0 == Ok::<TagM, ErrorM>(tag@) && g.1 == n1 + n2 + 2);
            assert(cur.skip(1 + g.1) == input.bytes());
            assert(scan_groups_spec(cur).0 == (match scan_groups_spec(cur.skip(1 + g.1)).0 {
                Ok(t) => Ok::<Seq<TagM>, ErrorM>(seq![tag@] + t),
                Err(e2) => Err::<Seq<TagM>, ErrorM>(e2),
            }));
            let t0 = scan_groups_spec(cur.skip(1 + g.1));
            if t0.0 is Ok {
                assert(f0 + (seq![tag@] + t0.0->Ok_0) =~= frame@ + t0.0->Ok_0);
            }
            consumed = consumed + 1 + n1 + n2 + 2;
        }
    }
}

} // verus!
