use vstd::prelude::*;
use vstd::utf8::encode_utf8;

use crate::wire::{
    le_bytes, le_value, lemma_le_bytes_len, lemma_le_bytes_of_value, lemma_le_value_bound,
    lemma_le_value_of_bytes, lemma_parse_series_bytes, lemma_parse_text_bytes, lemma_radix_values,
    lemma_series_bytes_parsed, lemma_text_bytes_parsed, parse_series, parse_text, put_bytes,
    put_le, put_series, put_text, read_series, read_text, read_u64, series_bytes, series_fits,
    stamp_code, stamp_from_u64, stamp_of, stamp_to_u64, text_bytes, text_fits,
};

verus! {

/// The payload of a record. Each price, the confidence and the volatility
/// is a 64-bit floating-point number, held here by its bits: the store
/// keeps these numbers and never computes with them.
#[derive(Clone, Debug, PartialEq)]
pub struct PredictionData {
    pub current_price: u64,
    pub predicted_prices: Vec<u64>,
    pub confidence: u64,
    pub prediction_days: u8,
    pub volatility: u64,
    pub trend: String,
}

/// A payload as a mathematical value.
pub struct PredictionDataView {
    pub current_price: u64,
    pub predicted_prices: Seq<u64>,
    pub confidence: u64,
    pub prediction_days: u8,
    pub volatility: u64,
    pub trend: Seq<char>,
}

impl View for PredictionData {
    type V = PredictionDataView;

    open spec fn view(&self) -> PredictionDataView {
        PredictionDataView {
            current_price: self.current_price,
            predicted_prices: self.predicted_prices@,
            confidence: self.confidence,
            prediction_days: self.prediction_days,
            volatility: self.volatility,
            trend: self.trend@,
        }
    }
}

/// A record: who owns it, the symbol it is kept under, its payload, and
/// the time of its last write.
#[derive(Clone, Debug, PartialEq)]
pub struct Prediction {
    pub authority: [u8; 32],
    pub symbol: String,
    pub prediction_data: PredictionData,
    pub timestamp: i64,
}

/// A record as a mathematical value.
pub struct PredictionView {
    pub authority: Seq<u8>,
    pub symbol: Seq<char>,
    pub prediction_data: PredictionDataView,
    pub timestamp: i64,
}

impl View for Prediction {
    type V = PredictionView;

    open spec fn view(&self) -> PredictionView {
        PredictionView {
            authority: self.authority@,
            symbol: self.symbol@,
            prediction_data: self.prediction_data@,
            timestamp: self.timestamp,
        }
    }
}

/// A payload on the wire: the current price, the series of predicted
/// prices, the confidence, the horizon in days, the volatility and the
/// trend, in this order and with nothing between them.
pub open spec fn data_bytes(data: PredictionDataView) -> Seq<u8> {
    le_bytes(data.current_price as nat, 8) + series_bytes(data.predicted_prices) + le_bytes(
        data.confidence as nat,
        8,
    ) + seq![data.prediction_days] + le_bytes(data.volatility as nat, 8) + text_bytes(data.trend)
}

/// Whether the payload's series and trend are short enough to be written.
pub open spec fn data_fits(data: PredictionDataView) -> bool {
    series_fits(data.predicted_prices) && text_fits(data.trend)
}

/// The payload at the start of `bytes` and the number of bytes it takes.
pub open spec fn parse_data(bytes: Seq<u8>) -> Option<(PredictionDataView, nat)> {
    if bytes.len() < 8 {
        None
    } else {
        match parse_series(bytes.skip(8)) {
            None => None,
            Some((prices, n)) => {
                let at = (8 + n) as int;
                if bytes.len() < at + 17 {
                    None
                } else {
                    match parse_text(bytes.skip(at + 17)) {
                        None => None,
                        Some((trend, m)) => Some(
                            (
                                PredictionDataView {
                                    current_price: le_value(bytes.take(8)) as u64,
                                    predicted_prices: prices,
                                    confidence: le_value(bytes.subrange(at, at + 8)) as u64,
                                    prediction_days: bytes[at + 8],
                                    volatility: le_value(bytes.subrange(at + 9, at + 17)) as u64,
                                    trend,
                                },
                                (at + 17 + m) as nat,
                            ),
                        ),
                    }
                }
            },
        }
    }
}

/// A record on the wire: the owner's 32 bytes, the symbol, the payload and
/// the time of the last write.
pub open spec fn record_bytes(record: PredictionView) -> Seq<u8> {
    record.authority + text_bytes(record.symbol) + data_bytes(record.prediction_data) + le_bytes(
        stamp_code(record.timestamp),
        8,
    )
}

/// Whether the record can be written: its owner has 32 bytes, and its
/// symbol, series and trend are short enough.
pub open spec fn record_fits(record: PredictionView) -> bool {
    record.authority.len() == 32 && text_fits(record.symbol) && data_fits(record.prediction_data)
}

/// The record at the start of `bytes` and the number of bytes it takes.
pub open spec fn parse_record(bytes: Seq<u8>) -> Option<(PredictionView, nat)> {
    if bytes.len() < 32 {
        None
    } else {
        match parse_text(bytes.skip(32)) {
            None => None,
            Some((symbol, n)) => match parse_data(bytes.skip(32 + n as int)) {
                None => None,
                Some((data, m)) => {
                    let at = (32 + n + m) as int;
                    if bytes.len() < at + 8 {
                        None
                    } else {
                        Some(
                            (
                                PredictionView {
                                    authority: bytes.take(32),
                                    symbol,
                                    prediction_data: data,
                                    timestamp: stamp_of(le_value(bytes.subrange(at, at + 8))),
                                },
                                (at + 8) as nat,
                            ),
                        )
                    }
                },
            },
        }
    }
}

/// The length of a written payload: 33 bytes for the numbers and the two
/// lengths, eight for each predicted price, and the trend's own.
pub proof fn lemma_data_bytes_len(data: PredictionDataView)
    requires
        data_fits(data),
    ensures
        data_bytes(data).len() == 33 + 8 * data.predicted_prices.len() + encode_utf8(
            data.trend,
        ).len(),
{
    lemma_le_bytes_len(data.current_price as nat, 8);
    lemma_le_bytes_len(data.confidence as nat, 8);
    lemma_le_bytes_len(data.volatility as nat, 8);
    lemma_parse_series_bytes(data.predicted_prices, Seq::empty());
    lemma_parse_text_bytes(data.trend, Seq::empty());
}

/// A payload that was written is read back, whatever follows it.
pub proof fn lemma_parse_data_bytes(data: PredictionDataView, rest: Seq<u8>)
    requires
        data_fits(data),
    ensures
        parse_data(data_bytes(data) + rest) == Some((data, data_bytes(data).len())),
{
    let price = le_bytes(data.current_price as nat, 8);
    let series = series_bytes(data.predicted_prices);
    let confidence = le_bytes(data.confidence as nat, 8);
    let volatility = le_bytes(data.volatility as nat, 8);
    let trend = text_bytes(data.trend);
    let bytes = data_bytes(data) + rest;
    lemma_le_bytes_len(data.current_price as nat, 8);
    lemma_le_bytes_len(data.confidence as nat, 8);
    lemma_le_bytes_len(data.volatility as nat, 8);
    lemma_radix_values();
    lemma_le_value_of_bytes(data.current_price as nat, 8);
    lemma_le_value_of_bytes(data.confidence as nat, 8);
    lemma_le_value_of_bytes(data.volatility as nat, 8);

    let after_price = series + (confidence + seq![data.prediction_days] + volatility + trend
        + rest);
    assert(bytes.take(8) =~= price);
    assert(bytes.skip(8) =~= after_price);
    lemma_parse_series_bytes(
        data.predicted_prices,
        confidence + seq![data.prediction_days] + volatility + trend + rest,
    );
    let at = (8 + series.len()) as int;
    assert(bytes.subrange(at, at + 8) =~= confidence);
    assert(bytes[at + 8] == data.prediction_days);
    assert(bytes.subrange(at + 9, at + 17) =~= volatility);
    assert(bytes.skip(at + 17) =~= trend + rest);
    lemma_parse_text_bytes(data.trend, rest);
    let (parsed, used) = parse_data(bytes)->0;
    assert(parsed.predicted_prices == data.predicted_prices);
    assert(parsed.trend == data.trend);
}

/// What was read as a payload is what writing that payload gives.
pub proof fn lemma_data_bytes_parsed(bytes: Seq<u8>, data: PredictionDataView, used: nat)
    requires
        parse_data(bytes) == Some((data, used)),
    ensures
        data_fits(data),
        data_bytes(data) == bytes.take(used as int),
        used <= bytes.len(),
{
    let (prices, n) = parse_series(bytes.skip(8))->0;
    let at = (8 + n) as int;
    let (trend, m) = parse_text(bytes.skip(at + 17))->0;
    lemma_series_bytes_parsed(bytes.skip(8), prices, n);
    lemma_text_bytes_parsed(bytes.skip(at + 17), trend, m);
    lemma_radix_values();
    lemma_le_value_bound(bytes.take(8));
    lemma_le_bytes_of_value(bytes.take(8));
    lemma_le_value_bound(bytes.subrange(at, at + 8));
    lemma_le_bytes_of_value(bytes.subrange(at, at + 8));
    lemma_le_value_bound(bytes.subrange(at + 9, at + 17));
    lemma_le_bytes_of_value(bytes.subrange(at + 9, at + 17));
    assert(data_bytes(data) =~= bytes.take(used as int));
}

/// The length of a written record: 44 bytes for the owner, the symbol's
/// length and the time, and the symbol's and the payload's own.
pub proof fn lemma_record_bytes_len(record: PredictionView)
    requires
        record_fits(record),
    ensures
        record_bytes(record).len() == 44 + encode_utf8(record.symbol).len() + data_bytes(
            record.prediction_data,
        ).len(),
{
    lemma_parse_text_bytes(record.symbol, Seq::empty());
    lemma_le_bytes_len(stamp_code(record.timestamp), 8);
}

/// Reading is the inverse of writing: a record that can be written is read
/// back from its bytes, field by field, whatever follows them.
pub proof fn record_read_back(record: PredictionView, rest: Seq<u8>)
    requires
        record_fits(record),
    ensures
        parse_record(record_bytes(record) + rest) == Some((record, record_bytes(record).len())),
{
    let symbol = text_bytes(record.symbol);
    let data = data_bytes(record.prediction_data);
    let stamp = le_bytes(stamp_code(record.timestamp), 8);
    let bytes = record_bytes(record) + rest;
    lemma_le_bytes_len(stamp_code(record.timestamp), 8);
    lemma_radix_values();
    lemma_le_value_of_bytes(stamp_code(record.timestamp), 8);

    assert(bytes.take(32) =~= record.authority);
    assert(bytes.skip(32) =~= symbol + (data + stamp + rest));
    lemma_parse_text_bytes(record.symbol, data + stamp + rest);
    assert(bytes.skip(32 + symbol.len() as int) =~= data + (stamp + rest));
    lemma_parse_data_bytes(record.prediction_data, stamp + rest);
    let at = (32 + symbol.len() + data.len()) as int;
    assert(bytes.subrange(at, at + 8) =~= stamp);
    let (parsed, used) = parse_record(bytes)->0;
    assert(parsed.authority == record.authority);
    assert(parsed.timestamp == record.timestamp);
}

/// Writing is the inverse of reading: the bytes that a record was read
/// from are the bytes that writing the record gives.
pub proof fn record_written_back(bytes: Seq<u8>, record: PredictionView, used: nat)
    requires
        parse_record(bytes) == Some((record, used)),
    ensures
        record_fits(record),
        used <= bytes.len(),
        record_bytes(record) == bytes.take(used as int),
{
    let (symbol, n) = parse_text(bytes.skip(32))->0;
    let (data, m) = parse_data(bytes.skip(32 + n as int))->0;
    let at = (32 + n + m) as int;
    lemma_text_bytes_parsed(bytes.skip(32), symbol, n);
    lemma_data_bytes_parsed(bytes.skip(32 + n as int), data, m);
    let stamp = bytes.subrange(at, at + 8);
    lemma_radix_values();
    lemma_le_value_bound(stamp);
    lemma_le_bytes_of_value(stamp);
    assert(stamp_code(record.timestamp) == le_value(stamp));
    assert(record_bytes(record) =~= bytes.take(used as int));
}

impl PredictionData {
    /// Appends the payload as it stands on the wire, unless its series or
    /// its trend is too long for that.
    pub fn put(&self, out: &mut Vec<u8>) -> (ok: bool)
        ensures
            ok == data_fits(self@),
            ok ==> final(out)@ == old(out)@ + data_bytes(self@),
            !ok ==> final(out)@ == old(out)@,
    {
        if self.predicted_prices.len() > u32::MAX as usize || self.trend.as_str().as_bytes().len()
            > u32::MAX as usize {
            return false;
        }
        put_le(out, self.current_price, 8);
        put_series(out, &self.predicted_prices);
        put_le(out, self.confidence, 8);
        out.push(self.prediction_days);
        put_le(out, self.volatility, 8);
        put_text(out, self.trend.as_str());
        assert(out@ =~= old(out)@ + data_bytes(self@));
        true
    }

    /// Reads the payload that starts at `at`; gives it with the place where
    /// it ends.
    pub fn read(bytes: &[u8], at: usize) -> (r: Option<(PredictionData, usize)>)
        requires
            at <= bytes.len(),
        ensures
            match parse_data(bytes@.skip(at as int)) {
                Some((data, n)) => r matches Some(found) && found.0@ == data && found.1 == at + n,
                None => r is None,
            },
    {
        let ghost tail = bytes@.skip(at as int);
        if bytes.len() - at < 8 {
            return None;
        }
        let current_price = read_u64(bytes, at);
        assert(bytes@.subrange(at as int, at + 8) =~= tail.take(8));
        assert(bytes@.skip(at + 8) =~= tail.skip(8));
        let (predicted_prices, next) = match read_series(bytes, at + 8) {
            Some(found) => found,
            None => { return None; },
        };
        if bytes.len() - next < 17 {
            return None;
        }
        let confidence = read_u64(bytes, next);
        let prediction_days = bytes[next + 8];
        let volatility = read_u64(bytes, next + 9);
        assert(bytes@.subrange(next as int, next + 8) =~= tail.subrange(next - at, next - at + 8));
        assert(bytes@.subrange(next + 9, next + 17) =~= tail.subrange(
            next - at + 9,
            next - at + 17,
        ));
        assert(bytes@.skip(next + 17) =~= tail.skip(next - at + 17));
        let (trend, end) = match read_text(bytes, next + 17) {
            Some(found) => found,
            None => { return None; },
        };
        Some(
            (
                PredictionData {
                    current_price,
                    predicted_prices,
                    confidence,
                    prediction_days,
                    volatility,
                    trend,
                },
                end,
            ),
        )
    }
}

impl Prediction {
    /// The record as it stands on the wire, or `None` when its symbol, its
    /// series or its trend is too long to be written.
    pub fn serialize(&self) -> (r: Option<Vec<u8>>)
        ensures
            r is Some <==> record_fits(self@),
            r matches Some(bytes) ==> bytes@ == record_bytes(self@),
    {
        let mut out: Vec<u8> = Vec::new();
        put_bytes(&mut out, self.authority.as_slice());
        if !put_text(&mut out, self.symbol.as_str()) {
            return None;
        }
        if !self.prediction_data.put(&mut out) {
            return None;
        }
        put_le(&mut out, stamp_to_u64(self.timestamp), 8);
        assert(out@ =~= record_bytes(self@));
        Some(out)
    }

    /// The record at the start of `bytes`, or `None` when `bytes` do not
    /// start with a record. Bytes after the record are not looked at.
    pub fn deserialize(bytes: &[u8]) -> (r: Option<Prediction>)
        ensures
            match parse_record(bytes@) {
                Some((record, _)) => r matches Some(found) && found@ == record,
                None => r is None,
            },
    {
        if bytes.len() < 32 {
            return None;
        }
        let mut authority = [0u8; 32];
        let mut i: usize = 0;
        while i < 32
            invariant
                i <= 32,
                32 <= bytes.len(),
                forall|k: int| 0 <= k < i ==> authority@[k] == bytes@[k],
            decreases 32 - i,
        {
            authority[i] = bytes[i];
            i += 1;
        }
        assert(authority@ =~= bytes@.take(32));
        assert(bytes@.skip(0) =~= bytes@);
        let (symbol, next) = match read_text(bytes, 32) {
            Some(found) => found,
            None => { return None; },
        };
        let (prediction_data, end) = match PredictionData::read(bytes, next) {
            Some(found) => found,
            None => { return None; },
        };
        if bytes.len() - end < 8 {
            return None;
        }
        let timestamp = stamp_from_u64(read_u64(bytes, end));
        Some(Prediction { authority, symbol, prediction_data, timestamp })
    }
}

} // verus!
