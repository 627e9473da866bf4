//! Projecting a parsed configuration document into the typed calibration
//! record, rejecting unknown schema versions.

use vstd::prelude::*;
use vstd::string::{StrSliceExecFns, StringExecFns};
use vstd::utf8::{decode_utf8, valid_utf8};
use crate::errors::Error;
use crate::jsondoc::{fields_view, parse_doc, parse_doc_s, str_eq, DocFieldsSpec};
use crate::numtok::{trunc_u32, trunc_u32_s};

verus! {

/// The calibration record of one display, decoded from its configuration
/// document. The optical parameters are kept as the exact decimal number
/// text the document carried, so nothing is lost to rounding; the screen
/// size is narrowed to whole pixels by truncation toward zero.
pub struct LookingGlass {
    /// Serial number as the configuration document reports it.
    pub serial: String,
    pub pitch: String,
    pub slope: String,
    pub center: String,
    pub dpi: String,
    /// Width in pixels.
    pub screen_w: u32,
    /// Height in pixels.
    pub screen_h: u32,
}

/// The version string this decoder supports.
pub open spec fn supported_version() -> Seq<char> {
    "1.0"@
}

/// A parsed document is complete when every schema field appeared.
pub open spec fn doc_complete(f: DocFieldsSpec) -> bool {
    &&& f.version is Some
    &&& f.serial is Some
    &&& f.nums.len() == 12
    &&& forall|k: int| 0 <= k < 12 ==> f.nums[k] is Some
}

/// What decoding a document text yields: a record, a schema failure, or
/// a version the decoder does not support.
pub enum DecodeOutcome {
    Record {
        serial: Seq<char>,
        pitch: Seq<char>,
        slope: Seq<char>,
        center: Seq<char>,
        dpi: Seq<char>,
        screen_w: u32,
        screen_h: u32,
    },
    BadSchema,
    BadVersion(Seq<char>),
}

/// The outcome of decoding a document text: any grammar failure or
/// missing field is a schema failure; a complete document with an
/// unsupported version yields that version as a failure; otherwise the
/// record's fields are exactly the document's fields, with the screen
/// size truncated toward zero.
pub open spec fn decode_text_s(s: Seq<char>) -> DecodeOutcome {
    match parse_doc_s(s) {
        None => DecodeOutcome::BadSchema,
        Some(f) => if !doc_complete(f) {
            DecodeOutcome::BadSchema
        } else if f.version->Some_0 != supported_version() {
            DecodeOutcome::BadVersion(f.version->Some_0)
        } else {
            DecodeOutcome::Record {
                serial: f.serial->Some_0,
                pitch: f.nums[0]->Some_0,
                slope: f.nums[1]->Some_0,
                center: f.nums[2]->Some_0,
                dpi: f.nums[6]->Some_0,
                screen_w: trunc_u32_s(f.nums[7]->Some_0),
                screen_h: trunc_u32_s(f.nums[8]->Some_0),
            }
        },
    }
}

/// How a decode result must relate to the outcome the text determines.
pub open spec fn matches_outcome(r: Result<LookingGlass, Error>, s: Seq<char>) -> bool {
    match decode_text_s(s) {
        DecodeOutcome::Record { serial, pitch, slope, center, dpi, screen_w, screen_h } => {
            &&& r matches Ok(g)
            &&& g.serial@ == serial
            &&& g.pitch@ == pitch
            &&& g.slope@ == slope
            &&& g.center@ == center
            &&& g.dpi@ == dpi
            &&& g.screen_w == screen_w
            &&& g.screen_h == screen_h
        },
        DecodeOutcome::BadSchema => r matches Err(e) && e matches Error::SchemaParse(m) && m@
            == "document does not match the configuration schema"@,
        DecodeOutcome::BadVersion(v) => r matches Err(e) && e matches Error::UnsupportedVersion(m)
            && m@ == v,
    }
}

fn schema_error() -> (e: Error)
    ensures
        e matches Error::SchemaParse(m) && m@
            == "document does not match the configuration schema"@,
{
    Error::SchemaParse(String::from_str("document does not match the configuration schema"))
}

/// Decodes a configuration document's text into a calibration record,
/// exactly as `decode_text_s` describes.
pub fn json_to_glass(json_string: String) -> (r: Result<LookingGlass, Error>)
    ensures
        matches_outcome(r, json_string@),
{
    let f = match parse_doc(json_string.as_str()) {
        Some(f) => f,
        None => {
            let e = schema_error();
            proof {
                assert(decode_text_s(json_string@) is BadSchema);
                assert(matches_outcome(Err::<LookingGlass, Error>(e), json_string@));
            }
            return Err(e);
        },
    };
    let ghost fv = fields_view(f);
    let mut all_there = f.version.is_some() && f.serial.is_some();
    let mut idx: usize = 0;
    while idx < 12
        invariant
            idx <= 12,
            f.nums@.len() == 12,
            all_there == (f.version is Some && f.serial is Some && forall|m: int|
                0 <= m < idx ==> f.nums@[m] is Some),
        decreases 12 - idx,
    {
        all_there = all_there && f.nums[idx].is_some();
        idx += 1;
    }
    if !all_there {
        let e = schema_error();
        proof {
            assert(!doc_complete(fv)) by {
                if f.version is None {
                    assert(fv.version is None);
                } else if f.serial is None {
                    assert(fv.serial is None);
                } else {
                    let m = choose|m: int| 0 <= m < 12 && !(f.nums@[m] is Some);
                    assert(f.nums@[m] is None);
                    assert(fv.nums[m] is None);
                }
            }
            assert(decode_text_s(json_string@) is BadSchema);
            assert(matches_outcome(Err::<LookingGlass, Error>(e), json_string@));
        }
        return Err(e);
    }
    let version = f.version.unwrap();
    let serial = f.serial.unwrap();
    let mut nums = f.nums;
    // take the twelve numeric tokens out, last slot first; the fields
    // that are parsed only for schema validation are not retained
    let _flip_subp = nums.pop().unwrap().unwrap();
    let _flip_image_y = nums.pop().unwrap().unwrap();
    let _flip_image_x = nums.pop().unwrap().unwrap();
    let t_screen_h = nums.pop().unwrap().unwrap();
    let t_screen_w = nums.pop().unwrap().unwrap();
    let t_dpi = nums.pop().unwrap().unwrap();
    let _vertical_angle = nums.pop().unwrap().unwrap();
    let _inv_view = nums.pop().unwrap().unwrap();
    let _view_cone = nums.pop().unwrap().unwrap();
    let t_center = nums.pop().unwrap().unwrap();
    let t_slope = nums.pop().unwrap().unwrap();
    let t_pitch = nums.pop().unwrap().unwrap();
    if !str_eq(version.as_str(), "1.0") {
        let e = Error::UnsupportedVersion(version);
        proof {
            assert(decode_text_s(json_string@) matches DecodeOutcome::BadVersion(v) && v
                == fv.version->Some_0);
            assert(matches_outcome(Err::<LookingGlass, Error>(e), json_string@));
        }
        return Err(e);
    }
    let screen_w = trunc_u32(t_screen_w.as_str());
    let screen_h = trunc_u32(t_screen_h.as_str());
    let g = LookingGlass {
        serial,
        pitch: t_pitch,
        slope: t_slope,
        center: t_center,
        dpi: t_dpi,
        screen_w,
        screen_h,
    };
    proof {
        assert(decode_text_s(json_string@) is Record);
        assert(matches_outcome(Ok::<LookingGlass, Error>(g), json_string@));
    }
    Ok(g)
}

/// Decodes the assembled document bytes: they must be valid UTF-8, and
/// their text must decode as `decode_text_s` describes.
pub fn decode_document(bytes: Vec<u8>) -> (r: Result<LookingGlass, Error>)
    ensures
        !valid_utf8(bytes@) ==> r == Err::<LookingGlass, Error>(Error::Encoding),
        valid_utf8(bytes@) ==> matches_outcome(r, decode_utf8(bytes@)),
{
    match core::str::from_utf8(bytes.as_slice()) {
        Ok(text) => {
            let owned = text.to_owned();
            json_to_glass(owned)
        },
        Err(_) => Err(Error::Encoding),
    }
}

/// For every document text the grammar accepts that is complete and
/// declares the supported version, decoding yields a record whose string
/// fields are exactly the document's strings and whose numeric fields
/// are exactly the `value` tokens, with the screen size being their
/// truncation toward zero: nothing is altered on the way through.
pub proof fn lemma_record_projects_fields(s: Seq<char>)
    requires
        parse_doc_s(s) matches Some(f) && doc_complete(f) && f.version->Some_0
            == supported_version(),
    ensures
        decode_text_s(s) matches DecodeOutcome::Record {
            serial,
            pitch,
            slope,
            center,
            dpi,
            screen_w,
            screen_h,
        } && {
            let f = parse_doc_s(s)->Some_0;
            &&& serial == f.serial->Some_0
            &&& pitch == f.nums[0]->Some_0
            &&& slope == f.nums[1]->Some_0
            &&& center == f.nums[2]->Some_0
            &&& dpi == f.nums[6]->Some_0
            &&& screen_w == trunc_u32_s(f.nums[7]->Some_0)
            &&& screen_h == trunc_u32_s(f.nums[8]->Some_0)
        },
{
}

} // verus!
