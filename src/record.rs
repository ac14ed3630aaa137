//! Raw funding-history records as the service sends them, and their
//! normalised form.
use vstd::prelude::*;
use crate::decimal::{Decimal, DecimalView, is_decimal_text, decimal_of};
use crate::time::{millis_in_utc_range, utc_millis_in_range};

verus! {

/// A record as the service sends it: rates as decimal text, the time as
/// milliseconds since the epoch.
#[derive(Clone, Debug, PartialEq, Eq)]
pub struct RawFundingRecord {
    pub coin: String,
    pub funding_rate: String,
    pub premium: String,
    pub time: u64,
}

pub struct RawFundingRecordView {
    pub coin: Seq<char>,
    pub funding_rate: Seq<char>,
    pub premium: Seq<char>,
    pub time: u64,
}

impl View for RawFundingRecord {
    type V = RawFundingRecordView;

    open spec fn view(&self) -> RawFundingRecordView {
        RawFundingRecordView {
            coin: self.coin@,
            funding_rate: self.funding_rate@,
            premium: self.premium@,
            time: self.time,
        }
    }
}

/// A normalised funding record.
#[derive(Clone, Debug, PartialEq, Eq)]
pub struct FundingRecord {
    pub asset: String,
    pub funding_rate: Decimal,
    pub premium: Decimal,
    /// Milliseconds since the Unix epoch, UTC.
    pub timestamp_ms: u64,
}

pub struct FundingRecordView {
    pub asset: Seq<char>,
    pub funding_rate: DecimalView,
    pub premium: DecimalView,
    pub timestamp_ms: u64,
}

impl View for FundingRecord {
    type V = FundingRecordView;

    open spec fn view(&self) -> FundingRecordView {
        FundingRecordView {
            asset: self.asset@,
            funding_rate: self.funding_rate@,
            premium: self.premium@,
            timestamp_ms: self.timestamp_ms,
        }
    }
}

/// Which field of a raw record could not be read.
#[derive(Clone, Copy, Debug, PartialEq, Eq, Structural)]
pub enum MalformedRecordError {
    /// The funding rate is not decimal text.
    FundingRate,
    /// The premium is not decimal text.
    Premium,
    /// The time is outside the range of UTC instants.
    Timestamp,
}

/// Whether a UTC date-time can hold the epoch-millisecond time `t`.
pub open spec fn time_in_range(t: u64) -> bool {
    t <= i64::MAX && utc_millis_in_range(t as int)
}

/// The normalised form of a raw record, or the first field, in the order
/// funding rate, premium, time, that cannot be read.
pub open spec fn normalized(raw: RawFundingRecordView) -> Result<FundingRecordView, MalformedRecordError> {
    if !is_decimal_text(raw.funding_rate) {
        Err(MalformedRecordError::FundingRate)
    } else if !is_decimal_text(raw.premium) {
        Err(MalformedRecordError::Premium)
    } else if !time_in_range(raw.time) {
        Err(MalformedRecordError::Timestamp)
    } else {
        Ok(
            FundingRecordView {
                asset: raw.coin,
                funding_rate: decimal_of(raw.funding_rate),
                premium: decimal_of(raw.premium),
                timestamp_ms: raw.time,
            },
        )
    }
}

/// Whether `r` holds the value that `spec` describes.
pub open spec fn record_result_matches(
    r: Result<FundingRecord, MalformedRecordError>,
    spec: Result<FundingRecordView, MalformedRecordError>,
) -> bool {
    match r {
        Ok(rec) => spec == Ok::<FundingRecordView, MalformedRecordError>(rec@) && rec.wf(),
        Err(e) => spec == Err::<FundingRecordView, MalformedRecordError>(e),
    }
}

impl FundingRecord {
    /// Both rates are well-formed decimals.
    pub open spec fn wf(&self) -> bool {
        self.funding_rate@.wf() && self.premium@.wf()
    }

    /// Normalises a raw record: parses both rates and checks the time.
    pub fn from_raw(raw: &RawFundingRecord) -> (r: Result<FundingRecord, MalformedRecordError>)
        ensures
            record_result_matches(r, normalized(raw@)),
    {
        let funding_rate = match Decimal::parse(raw.funding_rate.as_str()) {
            Some(d) => d,
            None => return Err(MalformedRecordError::FundingRate),
        };
        let premium = match Decimal::parse(raw.premium.as_str()) {
            Some(d) => d,
            None => return Err(MalformedRecordError::Premium),
        };
        if raw.time > i64::MAX as u64 || !millis_in_utc_range(raw.time as i64) {
            return Err(MalformedRecordError::Timestamp);
        }
        Ok(FundingRecord { asset: raw.coin.clone(), funding_rate, premium, timestamp_ms: raw.time })
    }
}

} // verus!
