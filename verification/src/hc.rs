//! Extraction of the flat information record for the "Heures Creuses"
//! tariff plan from one decoded frame.

use crate::frame::ByteSource;
use crate::frame::Frame;
use crate::frame::FrameSyntax;
use crate::frame::PeriodeTarifaire;
use crate::frame::Tag;
use crate::frame::TeleinfoError;
use crate::model::builder_empty;
use crate::model::extract_fold;
use crate::model::extract_spec;
use crate::model::extract_step;
use crate::model::finalize_spec;
use crate::model::lemma_extract_fold_concat;
use crate::model::scan_frame_spec;
use crate::model::SyntaxM;
use crate::model::BuilderM;
use crate::model::ErrorM;
use crate::model::Field;
use crate::model::InfoM;
use crate::model::TagM;
use vstd::prelude::*;

verus! {

/// A wall-clock instant, as milliseconds since the Unix epoch. The capture
/// time is carried as this plain value; turning it back into a calendar
/// date is the caller's concern.
#[derive(Clone, Copy, Debug, PartialEq, Eq, Structural)]
pub struct Timestamp {
    pub millis: i64,
}

/// Relies on std::time::SystemTime::now for the capture instant, taken as
/// milliseconds since the Unix epoch. The value depends on the wall clock,
/// so nothing is stated of it; a clock that reads before the epoch gives
/// no instant, reported as the none case rather than by aborting.
#[verifier::external_body]
fn now_millis() -> Option<Timestamp> {
    match std::time::SystemTime::now().duration_since(std::time::UNIX_EPOCH) {
        Ok(d) => Some(Timestamp { millis: d.as_millis() as i64 }),
        Err(_) => None,
    }
}

/// All the useful information that can be extracted when in the
/// "Heures Creuses" tariff option.
#[derive(Debug)]
pub struct HcInfos {
    /// The date and time at which the frame was received.
    pub date: Timestamp,
    /// The current tariff period, "HP" or "HC".
    pub periode: String,
    /// The value of the HC meter, in Wh.
    pub hc: i32,
    /// The value of the HP meter, in Wh.
    pub hp: i32,
    /// The current intensity in A (informative).
    pub iinst: i32,
    /// Apparent power, in W (informative).
    pub papp: i32,
    /// True if the maximum subscribed intensity is exceeded.
    pub alerte: bool,
}

impl View for HcInfos {
    type V = InfoM;

    open spec fn view(&self) -> InfoM {
        InfoM {
            periode: self.periode@,
            hc: self.hc,
            hp: self.hp,
            iinst: self.iinst,
            papp: self.papp,
            alerte: self.alerte,
        }
    }
}

/// The extraction accumulator: one optional slot per mandatory field.
struct HcInfosBuilder {
    periode: Option<String>,
    hc: Option<i32>,
    hp: Option<i32>,
    iinst: Option<i32>,
    papp: Option<i32>,
    alerte: bool,
}

impl View for HcInfosBuilder {
    type V = BuilderM;

    closed spec fn view(&self) -> BuilderM {
        BuilderM {
            periode: match self.periode {
                Some(p) => Some(p@),
                None => None,
            },
            hc: self.hc,
            hp: self.hp,
            iinst: self.iinst,
            papp: self.papp,
            alerte: self.alerte,
        }
    }
}

impl HcInfosBuilder {
    fn new() -> (r: HcInfosBuilder)
        ensures
            r@ == builder_empty(),
    {
        HcInfosBuilder { periode: None, hc: None, hp: None, iinst: None, papp: None, alerte: false }
    }

    /// The finalize step: either every mandatory field was seen and the
    /// record is complete, or the first missing one is named.
    fn build(self, date: Timestamp) -> (r: Result<HcInfos, TeleinfoError>)
        ensures
            match r {
                Ok(info) => finalize_spec(self@) == Ok::<InfoM, ErrorM>(info@) && info.date
                    == date,
                Err(e) => finalize_spec(self@) == Err::<InfoM, ErrorM>(e@),
            },
    {
        let HcInfosBuilder { periode, hc, hp, iinst, papp, alerte } = self;
        let periode = match periode {
            Some(p) => p,
            None => {
                return Err(TeleinfoError::MissingField(Field::Periode));
            },
        };
        let hc = match hc {
            Some(v) => v,
            None => {
                return Err(TeleinfoError::MissingField(Field::HeuresCreuses));
            },
        };
        let hp = match hp {
            Some(v) => v,
            None => {
                return Err(TeleinfoError::MissingField(Field::HeuresPleines));
            },
        };
        let iinst = match iinst {
            Some(v) => v,
            None => {
                return Err(TeleinfoError::MissingField(Field::IntensiteInstantanee));
            },
        };
        let papp = match papp {
            Some(v) => v,
            None => {
                return Err(TeleinfoError::MissingField(Field::PuissanceApparente));
            },
        };
        Ok(HcInfos { date, periode, hc, hp, iinst, papp, alerte })
    }
}

impl HcInfos {
    /// Consumes one frame and folds it into the record, stamping the
    /// supplied capture time. A period tag outside this plan's two periods
    /// and a missing mandatory field are reported as errors; no partially
    /// valid record is ever returned.
    pub fn extract(frame: Frame, date: Timestamp) -> (r: Result<
        HcInfos,
        TeleinfoError,
    >)
        ensures
            match r {
                Ok(info) => extract_spec(frame@) == Ok::<InfoM, ErrorM>(info@) && info.date
                    == date,
                Err(e) => extract_spec(frame@) == Err::<InfoM, ErrorM>(e@),
            },
    {
        let ghost all = frame@;
        let mut builder = HcInfosBuilder::new();
        let n = frame.tags.len();
        let mut i: usize = 0;
        proof {
            assert(all.take(0) =~= Seq::<TagM>::empty());
        }
        while i < n
            invariant
                all == frame@,
                n == frame.tags@.len(),
                all.len() == n,
                0 <= i <= n,
                extract_fold(builder_empty(), all.take(i as int)) == Ok::<BuilderM, ErrorM>(
                    builder@,
                ),
            decreases n - i,
        {
            let t = &frame.tags[i];
            let ghost tv = all[i as int];
            proof {
                assert(tv == t@);
                assert(all.take(i + 1) =~= all.take(i as int) + seq![tv]);
                lemma_extract_fold_concat(builder_empty(), all.take(i as int), seq![tv]);
                assert(seq![tv][0] == tv);
                assert(seq![tv].skip(1) =~= Seq::<TagM>::empty());
                match extract_step(builder@, tv) {
                    Ok(s2) => {
                        assert(extract_fold(s2, seq![tv].skip(1)) == Ok::<BuilderM, ErrorM>(s2));
                        assert(extract_fold(builder@, seq![tv]) == Ok::<BuilderM, ErrorM>(s2));
                    },
                    Err(e) => {
                        assert(extract_fold(builder@, seq![tv]) == Err::<BuilderM, ErrorM>(e));
                    },
                }
            }
            match t {
                Tag::PTEC(p) => {
                    match p {
                        PeriodeTarifaire::HP => {
                            builder.periode = Some("HP".to_owned());
                        },
                        PeriodeTarifaire::HC => {
                            builder.periode = Some("HC".to_owned());
                        },
                        other => {
                            let owned = match other {
                                PeriodeTarifaire::TH => PeriodeTarifaire::TH,
                                PeriodeTarifaire::HC => PeriodeTarifaire::HC,
                                PeriodeTarifaire::HP => PeriodeTarifaire::HP,
                                PeriodeTarifaire::UNKNOWN(s) => PeriodeTarifaire::UNKNOWN(
                                    vstd::slice::slice_to_vec(s.as_slice()),
                                ),
                            };
                            proof {
                                assert(owned@ == other@);
                                assert(tv == TagM::Ptec(owned@));
                                assert(extract_fold(builder_empty(), all.take(i + 1)) == Err::<
                                    BuilderM,
                                    ErrorM,
                                >(ErrorM::Syntax(SyntaxM::UnexpectedPeriode(owned@))));
                                assert(all =~= all.take(i + 1) + all.skip(i + 1));
                                lemma_extract_fold_concat(
                                    builder_empty(),
                                    all.take(i + 1),
                                    all.skip(i + 1),
                                );
                            }
                            return Err(
                                TeleinfoError::FrameError(FrameSyntax::UnexpectedPeriode(owned)),
                            );
                        },
                    }
                },
                Tag::HCHC(v) => {
                    builder.hc = Some(*v);
                },
                Tag::HCHP(v) => {
                    builder.hp = Some(*v);
                },
                Tag::IINST(v) => {
                    builder.iinst = Some(*v);
                },
                Tag::PAPP(v) => {
                    builder.papp = Some(*v);
                },
                Tag::ADPS(_) => {
                    builder.alerte = true;
                },
                _ => {},
            }
            i = i + 1;
        }
        proof {
            assert(all.take(n as int) =~= all);
        }
        builder.build(date)
    }

    /// Tries to read the record from the next frame of the source. Any
    /// lower-level error in the frame (a wrong checksum, a malformed
    /// group) is returned as is; additionally, every mandatory field must
    /// be present in the frame, else the missing one is named.
    pub fn read<S: ByteSource>(input: &mut S) -> (r: Result<HcInfos, TeleinfoError>)
        ensures
            final(input).fallible() == old(input).fallible(),
            ({
                let s = scan_frame_spec(old(input).bytes());
                match r {
                    Ok(info) => s.0 is Ok && extract_spec(s.0->Ok_0) == Ok::<InfoM, ErrorM>(info@)
                        && final(input).bytes() == old(input).bytes().skip(s.1),
                    Err(e) => match e {
                        TeleinfoError::IoError(_) => old(input).fallible() && exists|k: int|
                            0 <= k <= old(input).bytes().len() && final(input).bytes() == old(
                                input,
                            ).bytes().skip(k),
                        _ => (s.0 == Err::<Seq<TagM>, ErrorM>(e@) || (s.0 is Ok && extract_spec(
                            s.0->Ok_0,
                        ) == Err::<InfoM, ErrorM>(e@))) && final(input).bytes() == old(
                            input,
                        ).bytes().skip(s.1),
                    },
                }
            }),
    {
        let frame = match Frame::next_frame(input) {
            Ok(f) => f,
            Err(e) => {
                return Err(e);
            },
        };
        // A wall clock set before the epoch yields no instant; the record
        // then carries the epoch itself rather than no record at all.
        let now = match now_millis() {
            Some(t) => t,
            None => Timestamp { millis: 0 },
        };
        let r = HcInfos::extract(frame, now);
        proof {
            crate::model::lemma_scan_frame_bounds(old(input).bytes());
            crate::model::lemma_extract_spec_err_kind(frame@);
        }
        r
    }
}

} // verus!
