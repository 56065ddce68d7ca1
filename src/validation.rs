//! Validation of marker input.
//!
//! Angles are checked on their IEEE-754 bit patterns: for non-negative
//! floats the bit patterns are ordered as the values are, and NaN and the
//! infinities lie above every finite value, so `|x| <= L` and "not NaN"
//! together are exactly `bits(x) & !SIGN <= bits(L)`.

use vstd::prelude::*;
use vstd::string::{StrSliceExecFns, StringExecFns};

use crate::event::{Degrees, MarkerData, MarkerModel, Payload, PayloadModel};

verus! {

/// All bits of a 64-bit float but the sign.
pub const MAGNITUDE_MASK: u64 = 0x7fff_ffff_ffff_ffff;

/// Bit pattern of `90.0`.
pub const LATITUDE_LIMIT_BITS: u64 = 0x4056_8000_0000_0000;

/// Bit pattern of `180.0`.
pub const LONGITUDE_LIMIT_BITS: u64 = 0x4066_8000_0000_0000;

/// Longest accepted icon identifier, in bytes.
pub const MAX_ICON_ID_LEN: usize = 64;

/// Longest accepted label, in bytes.
pub const MAX_LABEL_LEN: usize = 256;

/// Why marker input was refused.
#[derive(Clone, Debug, PartialEq)]
pub enum ValidationError {
    /// Latitude outside `[-90, 90]` or NaN.
    InvalidLatitude(Degrees),
    /// Longitude outside `[-180, 180]` or NaN.
    InvalidLongitude(Degrees),
    /// Icon identifier empty, too long or with characters outside
    /// `[A-Za-z0-9_-]`; carries the identifier.
    InvalidIconId(String),
    /// Icon identifier not among the configured icons; carries it.
    IconNotFound(String),
    /// Label longer than the limit; carries its length in bytes.
    LabelTooLong(usize),
}

/// `d` is a number in `[-90, 90]`.
pub open spec fn latitude_ok(d: Degrees) -> bool {
    d.0 & MAGNITUDE_MASK <= LATITUDE_LIMIT_BITS
}

/// `d` is a number in `[-180, 180]`.
pub open spec fn longitude_ok(d: Degrees) -> bool {
    d.0 & MAGNITUDE_MASK <= LONGITUDE_LIMIT_BITS
}

/// A character allowed in an icon identifier.
pub open spec fn icon_char(c: char) -> bool {
    ('a' <= c && c <= 'z') || ('A' <= c && c <= 'Z') || ('0' <= c && c <= '9') || c == '_' || c
        == '-'
}

/// `s` is a well-formed icon identifier: 1 to 64 bytes, all of `[A-Za-z0-9_-]`.
pub open spec fn icon_id_ok(s: Seq<char>) -> bool {
    &&& s.len() > 0
    &&& byte_len(s) <= MAX_ICON_ID_LEN
    &&& forall|i: int| 0 <= i < s.len() ==> icon_char(#[trigger] s[i])
}

/// The UTF-8 length of a text, as `str::len` reports it.
pub open spec fn byte_len(s: Seq<char>) -> usize {
    vstd::utf8::encode_utf8(s).len() as usize
}

/// `label` is absent or at most 256 bytes long.
pub open spec fn label_ok(label: Option<Seq<char>>) -> bool {
    match label {
        Some(l) => byte_len(l) <= MAX_LABEL_LEN,
        None => true,
    }
}

/// All marker fields are acceptable.
pub open spec fn marker_ok(d: MarkerModel) -> bool {
    latitude_ok(d.lat) && longitude_ok(d.lon) && icon_id_ok(d.icon_id) && label_ok(d.label)
}

/// The error that validation of marker data reports, checking latitude,
/// longitude, icon identifier and label in that order.
pub open spec fn marker_error_ok(d: MarkerModel, e: ValidationError) -> bool {
    if !latitude_ok(d.lat) {
        e == ValidationError::InvalidLatitude(d.lat)
    } else if !longitude_ok(d.lon) {
        e == ValidationError::InvalidLongitude(d.lon)
    } else if !icon_id_ok(d.icon_id) {
        e is InvalidIconId && e->InvalidIconId_0@ == d.icon_id
    } else {
        e == ValidationError::LabelTooLong(byte_len(d.label->Some_0))
    }
}

/// Checks for marker input.
pub struct Validator;

impl Validator {
    pub fn validate_latitude(lat: Degrees) -> (r: Result<(), ValidationError>)
        ensures
            r is Ok <==> latitude_ok(lat),
            r is Err ==> r == Err::<(), ValidationError>(ValidationError::InvalidLatitude(lat)),
    {
        if lat.0 & MAGNITUDE_MASK > LATITUDE_LIMIT_BITS {
            return Err(ValidationError::InvalidLatitude(lat));
        }
        Ok(())
    }

    pub fn validate_longitude(lon: Degrees) -> (r: Result<(), ValidationError>)
        ensures
            r is Ok <==> longitude_ok(lon),
            r is Err ==> r == Err::<(), ValidationError>(ValidationError::InvalidLongitude(lon)),
    {
        if lon.0 & MAGNITUDE_MASK > LONGITUDE_LIMIT_BITS {
            return Err(ValidationError::InvalidLongitude(lon));
        }
        Ok(())
    }

    /// Accepts 1 to 64 bytes of `[A-Za-z0-9_-]`.
    pub fn validate_icon_id(icon_id: &str) -> (r: Result<(), ValidationError>)
        ensures
            r is Ok <==> icon_id_ok(icon_id@),
            r is Err ==> r->Err_0 is InvalidIconId && r->Err_0->InvalidIconId_0@ == icon_id@,
    {
        if icon_id.is_empty() || icon_id.len() > MAX_ICON_ID_LEN {
            return Err(ValidationError::InvalidIconId(String::from_str(icon_id)));
        }
        let n = icon_id.unicode_len();
        let mut i: usize = 0;
        while i < n
            invariant
                n == icon_id@.len(),
                0 <= i <= n,
                forall|j: int| 0 <= j < i ==> icon_char(#[trigger] icon_id@[j]),
            decreases n - i,
        {
            let c = icon_id.get_char(i);
            if !(('a' <= c && c <= 'z') || ('A' <= c && c <= 'Z') || ('0' <= c && c <= '9') || c
                == '_' || c == '-') {
                return Err(ValidationError::InvalidIconId(String::from_str(icon_id)));
            }
            i = i + 1;
        }
        Ok(())
    }

    /// Accepts no label, or one of at most 256 bytes.
    pub fn validate_label(label: &Option<String>) -> (r: Result<(), ValidationError>)
        ensures
            r is Ok <==> label_ok(crate::event::opt_text(*label)),
            r is Err ==> r == Err::<(), ValidationError>(
                ValidationError::LabelTooLong(byte_len(label->Some_0@)),
            ),
    {
        if let Some(l) = label {
            let n = l.as_str().len();
            if n > MAX_LABEL_LEN {
                return Err(ValidationError::LabelTooLong(n));
            }
        }
        Ok(())
    }

    pub fn validate_marker_data(data: &MarkerData) -> (r: Result<(), ValidationError>)
        ensures
            r is Ok <==> marker_ok(data@),
            r is Err ==> marker_error_ok(data@, r->Err_0),
    {
        Self::validate_latitude(data.lat)?;
        Self::validate_longitude(data.lon)?;
        Self::validate_icon_id(data.icon_id.as_str())?;
        Self::validate_label(&data.label)?;
        Ok(())
    }

    /// Upserts are checked as marker data; a tombstone is always valid.
    pub fn validate_payload(payload: &Payload) -> (r: Result<(), ValidationError>)
        ensures
            r is Ok <==> match payload@ {
                PayloadModel::Upsert(d) => marker_ok(d),
                PayloadModel::Tombstone => true,
            },
            r is Err ==> match payload@ {
                PayloadModel::Upsert(d) => marker_error_ok(d, r->Err_0),
                PayloadModel::Tombstone => false,
            },
    {
        match payload {
            Payload::Upsert(data) => Self::validate_marker_data(data),
            Payload::Tombstone => Ok(()),
        }
    }
}

} // verus!
