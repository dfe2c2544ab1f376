//! Protocol-level laws: proofs that the scanner decodes every well-formed
//! encoded frame, that a corrupted checksum byte is always detected, that
//! scanning one frame leaves the stream positioned exactly on the next,
//! and that the extracted record's alert flag tracks the over-current tag.

use crate::model::builder_empty;
use crate::model::checksum_spec;
use crate::model::decode_tag;
use crate::model::extract_fold;
use crate::model::extract_spec;
use crate::model::extract_step;
use crate::model::lemma_extract_fold_concat;
use crate::model::read_to_sep_spec;
use crate::model::scan_frame_spec;
use crate::model::scan_group_spec;
use crate::model::scan_groups_spec;
use crate::model::skip_to_spec;
use crate::model::BuilderM;
use crate::model::ErrorM;
use crate::model::TagM;
use crate::model::CR;
use crate::model::EOT;
use crate::model::ETX;
use crate::model::LF;
use crate::model::SEPARATOR;
use crate::model::STX;
use vstd::prelude::*;

verus! {

/// A label or value that can stand on the wire: free of the separator and
/// of the abort marker.
pub open spec fn field_wf(s: Seq<u8>) -> bool {
    forall|i: int| 0 <= i < s.len() ==> (#[trigger] s[i]) != SEPARATOR && s[i] != EOT
}

/// A (label, value) pair whose encoding scans back to a tag: both fields
/// well-formed, and the pair decodable.
pub open spec fn pair_wf(lbl: Seq<u8>, val: Seq<u8>) -> bool {
    field_wf(lbl) && field_wf(val) && decode_tag(lbl, val) is Ok
}

pub open spec fn pairs_wf(pairs: Seq<(Seq<u8>, Seq<u8>)>) -> bool {
    forall|i: int| 0 <= i < pairs.len() ==> #[trigger] pair_wf(pairs[i].0, pairs[i].1)
}

/// Bytes that hold no start-of-frame and no abort marker: what
/// synchronization discards before a frame begins.
pub open spec fn noise_wf(s: Seq<u8>) -> bool {
    forall|i: int| 0 <= i < s.len() ==> (#[trigger] s[i]) != STX && s[i] != EOT
}

/// The wire encoding of one tag group, with its correct checksum.
pub open spec fn encode_group(lbl: Seq<u8>, val: Seq<u8>) -> Seq<u8> {
    seq![LF] + lbl + seq![SEPARATOR] + val + seq![SEPARATOR, checksum_spec(lbl, val), CR]
}

/// The wire encoding of a sequence of tag groups, in order.
pub open spec fn encode_groups(pairs: Seq<(Seq<u8>, Seq<u8>)>) -> Seq<u8>
    decreases pairs.len(),
{
    if pairs.len() == 0 {
        Seq::<u8>::empty()
    } else {
        encode_group(pairs[0].0, pairs[0].1) + encode_groups(pairs.skip(1))
    }
}

/// The wire encoding of one whole frame.
pub open spec fn encode_frame(pairs: Seq<(Seq<u8>, Seq<u8>)>) -> Seq<u8> {
    seq![STX] + encode_groups(pairs) + seq![ETX]
}

/// The decoded form of each pair, in order.
pub open spec fn decoded_pairs(pairs: Seq<(Seq<u8>, Seq<u8>)>) -> Seq<TagM> {
    pairs.map_values(|p: (Seq<u8>, Seq<u8>)| decode_tag(p.0, p.1)->Ok_0)
}

/// Synchronization discards any noise standing before the start marker
/// and consumes the marker itself.
proof fn lemma_sync_past_noise(noise: Seq<u8>, bytes: Seq<u8>)
    requires
        noise_wf(noise),
        bytes.len() > 0,
        bytes[0] == STX,
    ensures
        skip_to_spec(noise + bytes, STX) == (Ok::<(), ErrorM>(()), noise.len() + 1 as int),
    decreases noise.len(),
{
    let all = noise + bytes;
    if noise.len() == 0 {
        assert(all =~= bytes);
    } else {
        assert(all[0] == noise[0]);
        assert forall|i: int| 0 <= i < noise.skip(1).len() implies (#[trigger] noise.skip(1)[i])
            != STX && noise.skip(1)[i] != EOT by {
            assert(noise.skip(1)[i] == noise[i + 1]);
        }
        assert(all.skip(1) =~= noise.skip(1) + bytes);
        lemma_sync_past_noise(noise.skip(1), bytes);
    }
}

/// Reading up to the separator recovers exactly a well-formed field laid
/// down before one.
proof fn lemma_read_to_sep_encoded(content: Seq<u8>, rest: Seq<u8>)
    requires
        field_wf(content),
    ensures
        read_to_sep_spec(content + seq![SEPARATOR] + rest) == (
            Ok::<Seq<u8>, ErrorM>(content),
            content.len() + 1 as int,
        ),
    decreases content.len(),
{
    let bytes = content + seq![SEPARATOR] + rest;
    if content.len() == 0 {
        assert(bytes[0] == SEPARATOR);
        assert(content =~= Seq::<u8>::empty());
    } else {
        assert(bytes[0] == content[0]);
        assert(content[0] != SEPARATOR && content[0] != EOT);
        assert forall|i: int| 0 <= i < content.skip(1).len() implies (#[trigger] content.skip(1)[i])
            != SEPARATOR && content.skip(1)[i] != EOT by {
            assert(content.skip(1)[i] == content[i + 1]);
        }
        assert(bytes.skip(1) =~= content.skip(1) + seq![SEPARATOR] + rest);
        lemma_read_to_sep_encoded(content.skip(1), rest);
        assert(seq![content[0]] + content.skip(1) =~= content);
    }
}

/// The checksum byte always lies in the printable range, so it can never
/// be mistaken for a control byte.
proof fn lemma_checksum_printable(lbl: Seq<u8>, val: Seq<u8>)
    ensures
        0x20 <= checksum_spec(lbl, val) <= 0x5f,
{
    let sum = crate::model::sum_bytes(lbl.push(SEPARATOR) + val);
    assert(sum & 0x3f <= 0x3f) by (bit_vector);
}

/// Scanning one encoded group (after its line feed) yields exactly the
/// decoded tag and consumes exactly the group.
proof fn lemma_scan_group_encoded(lbl: Seq<u8>, val: Seq<u8>, rest: Seq<u8>)
    requires
        pair_wf(lbl, val),
    ensures
        scan_group_spec(
            lbl + seq![SEPARATOR] + val + seq![SEPARATOR, checksum_spec(lbl, val), CR] + rest,
        ) == (Ok::<TagM, ErrorM>(decode_tag(lbl, val)->Ok_0), lbl.len() + val.len() + 4 as int),
{
    let ck = checksum_spec(lbl, val);
    let bytes = lbl + seq![SEPARATOR] + val + seq![SEPARATOR, ck, CR] + rest;
    let tail1 = val + seq![SEPARATOR] + (seq![ck, CR] + rest);
    assert(bytes =~= lbl + seq![SEPARATOR] + tail1);
    lemma_read_to_sep_encoded(lbl, tail1);
    assert(read_to_sep_spec(bytes) == (Ok::<Seq<u8>, ErrorM>(lbl), lbl.len() + 1 as int));
    assert(bytes.skip(lbl.len() + 1 as int) =~= tail1);
    lemma_read_to_sep_encoded(val, seq![ck, CR] + rest);
    assert(read_to_sep_spec(tail1) == (Ok::<Seq<u8>, ErrorM>(val), val.len() + 1 as int));
    let n2 = lbl.len() + 1 + (val.len() + 1) as int;
    assert(bytes.skip(n2) =~= seq![ck, CR] + rest);
    lemma_checksum_printable(lbl, val);
    assert((seq![ck, CR] + rest)[0] == ck);
    assert(bytes.skip(n2 + 1) =~= seq![CR] + rest);
    assert((seq![CR] + rest)[0] == CR);
}

/// Scanning well-formed encoded groups laid down before any suffix: the
/// groups decode in order, and the scan goes on with the suffix's own
/// outcome.
#[verifier::rlimit(50)]
proof fn lemma_scan_groups_prefix(pairs: Seq<(Seq<u8>, Seq<u8>)>, suffix: Seq<u8>)
    requires
        pairs_wf(pairs),
    ensures
        ({
            let r = scan_groups_spec(suffix);
            scan_groups_spec(encode_groups(pairs) + suffix) == (
                match r.0 {
                    Ok(tags) => Ok::<Seq<TagM>, ErrorM>(decoded_pairs(pairs) + tags),
                    Err(e) => Err::<Seq<TagM>, ErrorM>(e),
                },
                encode_groups(pairs).len() + r.1,
            )
        }),
    decreases pairs.len(),
{
    let bytes = encode_groups(pairs) + suffix;
    if pairs.len() == 0 {
        assert(bytes =~= suffix);
        assert(decoded_pairs(pairs) =~= Seq::<TagM>::empty());
        match scan_groups_spec(suffix).0 {
            Ok(tags) => {
                assert(decoded_pairs(pairs) + tags =~= tags);
            },
            Err(e) => {},
        }
    } else {
        let lbl = pairs[0].0;
        let val = pairs[0].1;
        let ck = checksum_spec(lbl, val);
        assert(pair_wf(lbl, val));
        let grest = encode_groups(pairs.skip(1)) + suffix;
        assert(bytes =~= seq![LF] + (lbl + seq![SEPARATOR] + val + seq![SEPARATOR, ck, CR]
            + grest));
        assert(bytes[0] == LF);
        assert(bytes.skip(1) =~= lbl + seq![SEPARATOR] + val + seq![SEPARATOR, ck, CR] + grest);
        lemma_scan_group_encoded(lbl, val, grest);
        let g = scan_group_spec(bytes.skip(1));
        assert(g.0 == Ok::<TagM, ErrorM>(decode_tag(lbl, val)->Ok_0));
        assert(g.1 == lbl.len() + val.len() + 4);
        assert(bytes.skip(1 + g.1) =~= grest);
        assert forall|i: int| 0 <= i < pairs.skip(1).len() implies #[trigger] pair_wf(
            pairs.skip(1)[i].0,
            pairs.skip(1)[i].1,
        ) by {
            assert(pairs.skip(1)[i] == pairs[i + 1]);
        }
        lemma_scan_groups_prefix(pairs.skip(1), suffix);
        assert(seq![decode_tag(lbl, val)->Ok_0] + decoded_pairs(pairs.skip(1)) =~= decoded_pairs(
            pairs,
        )) by {
            assert forall|i: int| 0 <= i < pairs.len() implies (seq![decode_tag(lbl, val)->Ok_0]
                + decoded_pairs(pairs.skip(1)))[i] == #[trigger] decoded_pairs(pairs)[i] by {
                if i > 0 {
                    assert(pairs.skip(1)[i - 1] == pairs[i]);
                    assert(decoded_pairs(pairs.skip(1))[i - 1] == decode_tag(
                        pairs[i].0,
                        pairs[i].1,
                    )->Ok_0);
                }
            }
        }
        match scan_groups_spec(suffix).0 {
            Ok(tags) => {
                assert(seq![decode_tag(lbl, val)->Ok_0] + (decoded_pairs(pairs.skip(1)) + tags)
                    =~= decoded_pairs(pairs) + tags);
            },
            Err(e) => {},
        }
        assert(encode_groups(pairs).len() == encode_group(lbl, val).len() + encode_groups(
            pairs.skip(1),
        ).len());
    }
}

/// Scanning the encoded groups of a frame yields exactly the decoded pairs
/// in order, and stops just past the end-of-frame marker.
proof fn lemma_scan_groups_encoded(pairs: Seq<(Seq<u8>, Seq<u8>)>, rest: Seq<u8>)
    requires
        pairs_wf(pairs),
    ensures
        scan_groups_spec(encode_groups(pairs) + seq![ETX] + rest) == (
            Ok::<Seq<TagM>, ErrorM>(decoded_pairs(pairs)),
            encode_groups(pairs).len() + 1 as int,
        ),
    decreases pairs.len(),
{
    let suffix = seq![ETX] + rest;
    assert(suffix[0] == ETX);
    assert(scan_groups_spec(suffix) == (Ok::<Seq<TagM>, ErrorM>(Seq::<TagM>::empty()), 1int));
    lemma_scan_groups_prefix(pairs, suffix);
    assert(encode_groups(pairs) + seq![ETX] + rest =~= encode_groups(pairs) + suffix);
    assert(decoded_pairs(pairs) + Seq::<TagM>::empty() =~= decoded_pairs(pairs));
}

/// For any well-formed byte sequence built by encoding (label, value)
/// pairs with correct checksums and delimiters, one scan returns exactly
/// the decoded form of each pair, in the same order, with none dropped or
/// added, and consumes exactly the encoding: the bytes that follow it are
/// left untouched.
pub proof fn lemma_scan_encoded_frame(pairs: Seq<(Seq<u8>, Seq<u8>)>, rest: Seq<u8>)
    requires
        pairs_wf(pairs),
    ensures
        scan_frame_spec(encode_frame(pairs) + rest) == (
            Ok::<Seq<TagM>, ErrorM>(decoded_pairs(pairs)),
            encode_frame(pairs).len() as int,
        ),
{
    let bytes = encode_frame(pairs) + rest;
    assert(bytes[0] == STX);
    assert(skip_to_spec(bytes, STX) == (Ok::<(), ErrorM>(()), 1int));
    assert(bytes.skip(1) =~= encode_groups(pairs) + seq![ETX] + rest);
    lemma_scan_groups_encoded(pairs, rest);
}

/// As `lemma_scan_encoded_frame`, with any stretch of noise before the
/// start marker: synchronization discards it, and the frame decodes the
/// same, with the bytes after its encoding left untouched.
pub proof fn lemma_scan_encoded_frame_after_noise(
    noise: Seq<u8>,
    pairs: Seq<(Seq<u8>, Seq<u8>)>,
    rest: Seq<u8>,
)
    requires
        noise_wf(noise),
        pairs_wf(pairs),
    ensures
        scan_frame_spec(noise + encode_frame(pairs) + rest) == (
            Ok::<Seq<TagM>, ErrorM>(decoded_pairs(pairs)),
            noise.len() + encode_frame(pairs).len() as int,
        ),
{
    let bytes = noise + encode_frame(pairs) + rest;
    assert((encode_frame(pairs) + rest)[0] == STX);
    assert(bytes =~= noise + (encode_frame(pairs) + rest));
    lemma_sync_past_noise(noise, encode_frame(pairs) + rest);
    assert(skip_to_spec(bytes, STX) == (Ok::<(), ErrorM>(()), noise.len() + 1 as int));
    assert(bytes.skip(noise.len() + 1 as int) =~= encode_groups(pairs) + seq![ETX] + rest);
    lemma_scan_groups_encoded(pairs, rest);
}

/// Corrupting the checksum byte of any group of a frame (to any other
/// value that is not the abort marker) makes the scan of that frame report
/// the checksum mismatch, and no frame is returned: the sound groups
/// before the corrupted one are discarded with it.
pub proof fn lemma_corrupt_checksum_detected(
    sound: Seq<(Seq<u8>, Seq<u8>)>,
    lbl: Seq<u8>,
    val: Seq<u8>,
    bad: u8,
    rest: Seq<u8>,
)
    requires
        pairs_wf(sound),
        field_wf(lbl),
        field_wf(val),
        bad != checksum_spec(lbl, val),
        bad != EOT,
    ensures
        scan_frame_spec(
            seq![STX] + encode_groups(sound) + (seq![LF] + lbl + seq![SEPARATOR] + val + seq![
                SEPARATOR,
                bad,
                CR,
            ] + rest),
        ).0 == Err::<Seq<TagM>, ErrorM>(ErrorM::Checksum),
{
    let corrupt = seq![LF] + lbl + seq![SEPARATOR] + val + seq![SEPARATOR, bad, CR] + rest;
    let bytes = seq![STX] + encode_groups(sound) + corrupt;
    assert(bytes[0] == STX);
    assert(skip_to_spec(bytes, STX) == (Ok::<(), ErrorM>(()), 1int));
    assert(corrupt[0] == LF);
    let gbytes = corrupt.skip(1);
    let tail1 = val + seq![SEPARATOR] + (seq![bad, CR] + rest);
    assert(gbytes =~= lbl + seq![SEPARATOR] + tail1);
    lemma_read_to_sep_encoded(lbl, tail1);
    assert(gbytes.skip(lbl.len() + 1 as int) =~= tail1);
    lemma_read_to_sep_encoded(val, seq![bad, CR] + rest);
    let n2 = lbl.len() + 1 + (val.len() + 1) as int;
    assert(gbytes.skip(n2) =~= seq![bad, CR] + rest);
    assert((seq![bad, CR] + rest)[0] == bad);
    assert(scan_group_spec(gbytes).0 == Err::<TagM, ErrorM>(ErrorM::Checksum));
    assert(scan_groups_spec(corrupt).0 == Err::<Seq<TagM>, ErrorM>(ErrorM::Checksum));
    lemma_scan_groups_prefix(sound, corrupt);
    assert(bytes.skip(1) =~= encode_groups(sound) + corrupt);
}

/// Scanning one well-formed frame consumes exactly its encoding, so a
/// second scan, run on the bytes the first one left, independently decodes
/// the next frame: no state leaks from one scan into the next.
pub proof fn lemma_scan_second_frame(
    p1: Seq<(Seq<u8>, Seq<u8>)>,
    p2: Seq<(Seq<u8>, Seq<u8>)>,
    rest: Seq<u8>,
)
    requires
        pairs_wf(p1),
        pairs_wf(p2),
    ensures
        ({
            let bytes = encode_frame(p1) + encode_frame(p2) + rest;
            let r1 = scan_frame_spec(bytes);
            let r2 = scan_frame_spec(bytes.skip(r1.1));
            r1.0 == Ok::<Seq<TagM>, ErrorM>(decoded_pairs(p1)) && r1.1 == encode_frame(p1).len()
                && r2.0 == Ok::<Seq<TagM>, ErrorM>(decoded_pairs(p2)) && r2.1 == encode_frame(
                p2,
            ).len()
        }),
{
    let bytes = encode_frame(p1) + encode_frame(p2) + rest;
    assert(bytes =~= encode_frame(p1) + (encode_frame(p2) + rest));
    lemma_scan_encoded_frame(p1, encode_frame(p2) + rest);
    assert(bytes.skip(encode_frame(p1).len() as int) =~= encode_frame(p2) + rest);
    lemma_scan_encoded_frame(p2, rest);
}

/// Along the extraction pass, the alert flag is raised exactly when it was
/// already raised or an over-current warning tag is seen.
proof fn lemma_fold_alerte(st: BuilderM, tags: Seq<TagM>)
    requires
        extract_fold(st, tags) is Ok,
    ensures
        (extract_fold(st, tags)->Ok_0).alerte == (st.alerte || exists|i: int|
            0 <= i < tags.len() && tags[i] is Adps),
    decreases tags.len(),
{
    if tags.len() == 0 {
        assert(!(exists|i: int| 0 <= i < tags.len() && tags[i] is Adps));
    } else {
        assert(extract_step(st, tags[0]) is Ok);
        let st1 = extract_step(st, tags[0])->Ok_0;
        lemma_fold_alerte(st1, tags.skip(1));
        assert(st1.alerte == (st.alerte || tags[0] is Adps));
        assert((tags[0] is Adps || exists|j: int|
            0 <= j < tags.skip(1).len() && tags.skip(1)[j] is Adps) <==> (exists|i: int|
            0 <= i < tags.len() && tags[i] is Adps)) by {
            if tags[0] is Adps {
                assert(0 <= 0 < tags.len() && tags[0] is Adps);
            }
            if exists|j: int| 0 <= j < tags.skip(1).len() && tags.skip(1)[j] is Adps {
                let j = choose|j: int| 0 <= j < tags.skip(1).len() && tags.skip(1)[j] is Adps;
                assert(tags[j + 1] == tags.skip(1)[j]);
                assert(0 <= j + 1 < tags.len() && tags[j + 1] is Adps);
            }
            if exists|i: int| 0 <= i < tags.len() && tags[i] is Adps {
                let i = choose|i: int| 0 <= i < tags.len() && tags[i] is Adps;
                if i > 0 {
                    assert(tags.skip(1)[i - 1] == tags[i]);
                    assert(0 <= i - 1 < tags.skip(1).len() && tags.skip(1)[i - 1] is Adps);
                }
            }
        }
    }
}

/// A record extracted from a frame has its alert flag raised if and only
/// if the frame holds an over-current warning tag, whatever that tag's
/// numeric payload; its absence leaves the flag false.
pub proof fn lemma_alerte_iff_overcurrent(tags: Seq<TagM>)
    requires
        extract_spec(tags) is Ok,
    ensures
        (extract_spec(tags)->Ok_0).alerte <==> (exists|i: int|
            0 <= i < tags.len() && tags[i] is Adps),
{
    assert(extract_fold(builder_empty(), tags) is Ok);
    lemma_fold_alerte(builder_empty(), tags);
}

/// The payload of the last low-rate index tag of a frame, if any.
pub open spec fn last_hchc(tags: Seq<TagM>) -> Option<i32>
    decreases tags.len(),
{
    if tags.len() == 0 {
        None
    } else {
        match tags.last() {
            TagM::Hchc(v) => Some(v),
            _ => last_hchc(tags.drop_last()),
        }
    }
}

/// The payload of the last high-rate index tag of a frame, if any.
pub open spec fn last_hchp(tags: Seq<TagM>) -> Option<i32>
    decreases tags.len(),
{
    if tags.len() == 0 {
        None
    } else {
        match tags.last() {
            TagM::Hchp(v) => Some(v),
            _ => last_hchp(tags.drop_last()),
        }
    }
}

/// The payload of the last instantaneous-current tag of a frame, if any.
pub open spec fn last_iinst(tags: Seq<TagM>) -> Option<i32>
    decreases tags.len(),
{
    if tags.len() == 0 {
        None
    } else {
        match tags.last() {
            TagM::Iinst(v) => Some(v),
            _ => last_iinst(tags.drop_last()),
        }
    }
}

/// The payload of the last apparent-power tag of a frame, if any.
pub open spec fn last_papp(tags: Seq<TagM>) -> Option<i32>
    decreases tags.len(),
{
    if tags.len() == 0 {
        None
    } else {
        match tags.last() {
            TagM::Papp(v) => Some(v),
            _ => last_papp(tags.drop_last()),
        }
    }
}

/// Along the extraction pass, each numeric slot holds the payload of the
/// last corresponding tag seen, or keeps its starting value.
proof fn lemma_fold_last_values(st: BuilderM, tags: Seq<TagM>)
    requires
        extract_fold(st, tags) is Ok,
    ensures
        (extract_fold(st, tags)->Ok_0).hc == (match last_hchc(tags) {
            Some(v) => Some(v),
            None => st.hc,
        }),
        (extract_fold(st, tags)->Ok_0).hp == (match last_hchp(tags) {
            Some(v) => Some(v),
            None => st.hp,
        }),
        (extract_fold(st, tags)->Ok_0).iinst == (match last_iinst(tags) {
            Some(v) => Some(v),
            None => st.iinst,
        }),
        (extract_fold(st, tags)->Ok_0).papp == (match last_papp(tags) {
            Some(v) => Some(v),
            None => st.papp,
        }),
    decreases tags.len(),
{
    if tags.len() > 0 {
        let pre = tags.drop_last();
        let t = tags.last();
        assert(tags =~= pre + seq![t]);
        lemma_extract_fold_concat(st, pre, seq![t]);
        assert(extract_fold(st, pre) is Ok);
        let s_mid = extract_fold(st, pre)->Ok_0;
        assert(seq![t][0] == t);
        assert(seq![t].skip(1) =~= Seq::<TagM>::empty());
        assert(extract_step(s_mid, t) is Ok);
        let s_end = extract_step(s_mid, t)->Ok_0;
        assert(extract_fold(s_end, seq![t].skip(1)) == Ok::<BuilderM, ErrorM>(s_end));
        assert(extract_fold(s_mid, seq![t]) == Ok::<BuilderM, ErrorM>(s_end));
        lemma_fold_last_values(st, pre);
    }
}

/// A repeated tag overwrites the earlier value, with no aggregation: the
/// extracted record carries, for each numeric field, the payload of the
/// frame's last corresponding tag.
pub proof fn lemma_last_write_wins(tags: Seq<TagM>)
    requires
        extract_spec(tags) is Ok,
    ensures
        Some((extract_spec(tags)->Ok_0).hc) == last_hchc(tags),
        Some((extract_spec(tags)->Ok_0).hp) == last_hchp(tags),
        Some((extract_spec(tags)->Ok_0).iinst) == last_iinst(tags),
        Some((extract_spec(tags)->Ok_0).papp) == last_papp(tags),
{
    assert(extract_fold(builder_empty(), tags) is Ok);
    lemma_fold_last_values(builder_empty(), tags);
}

} // verus!
