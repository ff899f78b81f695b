use vstd::prelude::*;
use vstd::slice::slice_subrange;
use vstd::utf8::encode_utf8;

use crate::address::{derive_address, derived_address, same_key, MAX_SEED_LEN};
use crate::error::ErrorCode;
use crate::record::{
    data_bytes, lemma_data_bytes_len, lemma_record_bytes_len, parse_record, record_bytes,
    record_fits, record_read_back, Prediction, PredictionData, PredictionDataView, PredictionView,
};
use crate::wire::put_bytes;

verus! {

/// The eight bytes that mark a slot's data as a record of this store: the
/// start of the SHA-256 digest of `account:Prediction`, by which clients of
/// the ledger tell account types apart.
pub const RECORD_TAG: [u8; 8] = [98, 127, 141, 187, 218, 33, 8, 14];

/// The space reserved for the tag, the owner and the time of the last
/// write.
pub const HEADER_SPACE: usize = 8 + 32 + 8;

/// The space reserved for the payload, whatever the payload is at creation.
pub const PAYLOAD_ALLOWANCE: usize = 8 + (32 * 10);

/// The space reserved for a record besides its symbol's own bytes: the
/// header, the symbol's length, and the allowance for the payload.
pub const FIXED_SPACE: usize = HEADER_SPACE + 4 + PAYLOAD_ALLOWANCE;

/// The space that is reserved for a record whose symbol has `symbol_len`
/// bytes.
pub open spec fn space_for(symbol_len: nat) -> nat {
    symbol_len + FIXED_SPACE as nat
}

/// The space to reserve for a record whose symbol has `symbol_len` bytes.
pub fn space(symbol_len: usize) -> (size: usize)
    requires
        space_for(symbol_len as nat) <= usize::MAX,
    ensures
        size == space_for(symbol_len as nat),
{
    symbol_len + FIXED_SPACE
}

/// The record that a read of `data` yields: `data` start with the tag, and
/// a record stands behind it.
pub open spec fn stored_record(data: Seq<u8>) -> Option<PredictionView> {
    if data.len() >= 8 && data.take(8) == RECORD_TAG@ {
        match parse_record(data.skip(8)) {
            Some((record, _)) => Some(record),
            None => None,
        }
    } else {
        None
    }
}

/// The data of a slot that held `held` after the bytes `record` were
/// written to it: the tag, the record, and behind them what stood there
/// before.
pub open spec fn written(record: Seq<u8>, held: Seq<u8>) -> Seq<u8> {
    RECORD_TAG@ + record + held.skip(8 + record.len() as int)
}

/// Freshly reserved space: `size` zero bytes.
pub open spec fn blank(size: nat) -> Seq<u8> {
    Seq::new(size, |i: int| 0u8)
}

/// A record that was written into space that holds it is what a read
/// yields, and the space keeps its size.
pub proof fn lemma_written_is_stored(record: PredictionView, held: Seq<u8>)
    requires
        record_fits(record),
        8 + record_bytes(record).len() <= held.len(),
    ensures
        stored_record(written(record_bytes(record), held)) == Some(record),
        written(record_bytes(record), held).len() == held.len(),
{
    let bytes = record_bytes(record);
    let rest = held.skip(8 + bytes.len() as int);
    let data = written(bytes, held);
    assert(data.take(8) =~= RECORD_TAG@);
    assert(data.skip(8) =~= bytes + rest);
    record_read_back(record, rest);
}

/// A storage location: its address, and its data once space was reserved
/// for it.
#[derive(Clone, Debug, PartialEq)]
pub struct Slot {
    pub address: [u8; 32],
    pub data: Option<Vec<u8>>,
}

impl Slot {
    /// The record that the slot holds, if it holds one.
    pub open spec fn record(&self) -> Option<PredictionView> {
        match self.data {
            Some(data) => stored_record(data@),
            None => None,
        }
    }

    /// Whether the slot stands at the address derived, under `program_id`,
    /// from the owner and the symbol of the record it holds.
    pub open spec fn well_placed(&self, program_id: Seq<u8>) -> bool {
        self.record() matches Some(record) && derived_address(
            program_id,
            record.authority,
            record.symbol,
        ) matches Ok(found) && found.0 == self.address@
    }

    /// A slot at `address` for which no space was reserved yet.
    pub fn vacant(address: [u8; 32]) -> (slot: Slot)
        ensures
            slot.address == address,
            slot.data is None,
    {
        Slot { address, data: None }
    }

    /// Reads the record that the slot holds.
    pub fn read(&self) -> (r: Option<Prediction>)
        ensures
            match self.record() {
                Some(record) => r matches Some(found) && found@ == record,
                None => r is None,
            },
    {
        match &self.data {
            None => None,
            Some(data) => read_stored(data.as_slice()),
        }
    }
}

/// Reads the record that stands in `data`.
pub fn read_stored(data: &[u8]) -> (r: Option<Prediction>)
    ensures
        match stored_record(data@) {
            Some(record) => r matches Some(found) && found@ == record,
            None => r is None,
        },
{
    if has_tag(data) {
        Prediction::deserialize(slice_subrange(data, 8, data.len()))
    } else {
        None
    }
}

/// Whether `data` start with the record tag.
pub fn has_tag(data: &[u8]) -> (r: bool)
    ensures
        r == (data@.len() >= 8 && data@.take(8) == RECORD_TAG@),
{
    if data.len() < 8 {
        return false;
    }
    let mut i: usize = 0;
    while i < 8
        invariant
            i <= 8,
            8 <= data.len(),
            forall|k: int| 0 <= k < i ==> data@[k] == RECORD_TAG@[k],
        decreases 8 - i,
    {
        if data[i] != RECORD_TAG[i] {
            assert(data@.take(8)[i as int] != RECORD_TAG@[i as int]);
            return false;
        }
        i += 1;
    }
    assert(data@.take(8) =~= RECORD_TAG@);
    true
}

/// `size` zero bytes.
fn reserve(size: usize) -> (data: Vec<u8>)
    ensures
        data@ == blank(size as nat),
{
    let mut data: Vec<u8> = Vec::new();
    let mut i: usize = 0;
    while i < size
        invariant
            i <= size,
            data@.len() == i,
            forall|k: int| 0 <= k < i ==> data@[k] == 0,
        decreases size - i,
    {
        data.push(0);
        i += 1;
    }
    assert(data@ =~= blank(size as nat));
    data
}

/// Writes the tag and `record` over the start of `held`.
fn write_over(held: &[u8], record: &[u8]) -> (data: Vec<u8>)
    requires
        8 + record.len() <= held.len(),
    ensures
        data@ == written(record@, held@),
{
    let mut data: Vec<u8> = Vec::new();
    put_bytes(&mut data, RECORD_TAG.as_slice());
    put_bytes(&mut data, record);
    put_bytes(&mut data, slice_subrange(held, 8 + record.len(), held.len()));
    assert(data@ =~= written(record@, held@));
    data
}

/// What the host hands over for the creation of a record: the identity of
/// the program that owns the store, the slot, and the identity whose
/// authorisation the host has checked.
#[derive(Clone, Debug, PartialEq)]
pub struct InitializePrediction {
    pub program_id: [u8; 32],
    pub prediction: Slot,
    pub authority: [u8; 32],
}

/// What the host hands over for an update: the identity of the program
/// that owns the store, the slot, and the identity whose authorisation the
/// host has checked.
#[derive(Clone, Debug, PartialEq)]
pub struct UpdatePrediction {
    pub program_id: [u8; 32],
    pub prediction: Slot,
    pub authority: [u8; 32],
}

/// The outcome of creating a record at time `now`: the data that the slot
/// then holds, or the reason why nothing is created. The address is
/// checked first, then that the slot is vacant, then that the record fits
/// into the space reserved for its symbol.
pub open spec fn created(
    ctx: InitializePrediction,
    symbol: Seq<char>,
    data: PredictionDataView,
    now: i64,
) -> Result<Seq<u8>, ErrorCode> {
    match derived_address(ctx.program_id@, ctx.authority@, symbol) {
        Err(e) => Err(e),
        Ok(found) => {
            let record = PredictionView {
                authority: ctx.authority@,
                symbol,
                prediction_data: data,
                timestamp: now,
            };
            let size = space_for(encode_utf8(symbol).len());
            if found.0 != ctx.prediction.address@ {
                Err(ErrorCode::AddressMismatch)
            } else if ctx.prediction.data is Some {
                Err(ErrorCode::AllocationFailure)
            } else if !record_fits(record) || 8 + record_bytes(record).len() > size {
                Err(ErrorCode::AllocationFailure)
            } else {
                Ok(written(record_bytes(record), blank(size)))
            }
        },
    }
}

/// The outcome of replacing, at time `now`, the payload of the record in
/// the slot: the data that the slot then holds, or the reason why nothing
/// is changed. The slot must hold a record; its owner must be the
/// authorising identity; the slot must stand at the address derived from
/// the stored owner and symbol; and the new record must fit into the space
/// that was reserved at creation.
pub open spec fn updated(ctx: UpdatePrediction, data: PredictionDataView, now: i64) -> Result<
    Seq<u8>,
    ErrorCode,
> {
    match ctx.prediction.record() {
        None => Err(ErrorCode::AllocationFailure),
        Some(stored) => {
            if stored.authority != ctx.authority@ {
                Err(ErrorCode::Unauthorized)
            } else {
                match derived_address(ctx.program_id@, stored.authority, stored.symbol) {
                    Err(e) => Err(e),
                    Ok(found) => {
                        let record = PredictionView {
                            authority: stored.authority,
                            symbol: stored.symbol,
                            prediction_data: data,
                            timestamp: now,
                        };
                        let held = ctx.prediction.data->0@;
                        if found.0 != ctx.prediction.address@ {
                            Err(ErrorCode::AddressMismatch)
                        } else if !record_fits(record) || 8 + record_bytes(record).len()
                            > held.len() {
                            Err(ErrorCode::AllocationFailure)
                        } else {
                            Ok(written(record_bytes(record), held))
                        }
                    },
                }
            }
        },
    }
}

/// Creates the record of `ctx.authority` under `symbol` in the vacant slot
/// `ctx.prediction`, with the payload `prediction_data` and the time `now`.
pub fn initialize_prediction(
    ctx: &mut InitializePrediction,
    symbol: String,
    prediction_data: PredictionData,
    now: i64,
) -> (r: Result<(), ErrorCode>)
    ensures
        match created(*old(ctx), symbol@, prediction_data@, now) {
            Ok(data) => {
                &&& r is Ok
                &&& final(ctx).program_id == old(ctx).program_id
                &&& final(ctx).authority == old(ctx).authority
                &&& final(ctx).prediction.address == old(ctx).prediction.address
                &&& final(ctx).prediction.data matches Some(held) && held@ == data
            },
            Err(e) => r == Err::<(), ErrorCode>(e) && *final(ctx) == *old(ctx),
        },
        r is Ok ==> old(ctx).prediction.data is None,
        r is Ok ==> final(ctx).prediction.record() == Some(
            PredictionView {
                authority: old(ctx).authority@,
                symbol: symbol@,
                prediction_data: prediction_data@,
                timestamp: now,
            },
        ),
        r is Ok ==> final(ctx).prediction.well_placed(old(ctx).program_id@),
        r is Ok ==> final(ctx).prediction.data->0@.len() == space_for(encode_utf8(symbol@).len()),
{
    let found = match derive_address(&ctx.program_id, &ctx.authority, symbol.as_str()) {
        Ok(found) => found,
        Err(e) => { return Err(e); },
    };
    if !same_key(&found.0, &ctx.prediction.address) {
        return Err(ErrorCode::AddressMismatch);
    }
    if ctx.prediction.data.is_some() {
        return Err(ErrorCode::AllocationFailure);
    }
    let size = space(symbol.as_str().as_bytes().len());
    let record = Prediction { authority: ctx.authority, symbol, prediction_data, timestamp: now };
    let bytes = match record.serialize() {
        Some(bytes) => bytes,
        None => { return Err(ErrorCode::AllocationFailure); },
    };
    if bytes.len() > size - 8 {
        return Err(ErrorCode::AllocationFailure);
    }
    let held = reserve(size);
    let data = write_over(held.as_slice(), bytes.as_slice());
    proof {
        lemma_written_is_stored(record@, held@);
    }
    ctx.prediction.data = Some(data);
    Ok(())
}

/// Replaces the payload of the record in `ctx.prediction` by
/// `new_prediction_data` and sets its time to `now`, for its owner only.
pub fn update_prediction(
    ctx: &mut UpdatePrediction,
    new_prediction_data: PredictionData,
    now: i64,
) -> (r: Result<(), ErrorCode>)
    ensures
        match updated(*old(ctx), new_prediction_data@, now) {
            Ok(data) => {
                &&& r is Ok
                &&& final(ctx).program_id == old(ctx).program_id
                &&& final(ctx).authority == old(ctx).authority
                &&& final(ctx).prediction.address == old(ctx).prediction.address
                &&& final(ctx).prediction.data matches Some(held) && held@ == data
            },
            Err(e) => r == Err::<(), ErrorCode>(e) && *final(ctx) == *old(ctx),
        },
        r is Ok ==> {
            &&& old(ctx).prediction.record() matches Some(stored)
            &&& final(ctx).prediction.record() == Some(
                PredictionView {
                    authority: stored.authority,
                    symbol: stored.symbol,
                    prediction_data: new_prediction_data@,
                    timestamp: now,
                },
            )
        },
        r is Ok ==> final(ctx).prediction.well_placed(old(ctx).program_id@),
        r is Ok ==> final(ctx).prediction.data->0@.len() == old(ctx).prediction.data->0@.len(),
{
    let held = match &ctx.prediction.data {
        Some(held) => held,
        None => { return Err(ErrorCode::AllocationFailure); },
    };
    let stored = match read_stored(held.as_slice()) {
        Some(stored) => stored,
        None => { return Err(ErrorCode::AllocationFailure); },
    };
    if !same_key(&stored.authority, &ctx.authority) {
        return Err(ErrorCode::Unauthorized);
    }
    let found = match derive_address(&ctx.program_id, &stored.authority, stored.symbol.as_str()) {
        Ok(found) => found,
        Err(e) => { return Err(e); },
    };
    if !same_key(&found.0, &ctx.prediction.address) {
        return Err(ErrorCode::AddressMismatch);
    }
    let record = Prediction {
        authority: stored.authority,
        symbol: stored.symbol,
        prediction_data: new_prediction_data,
        timestamp: now,
    };
    let bytes = match record.serialize() {
        Some(bytes) => bytes,
        None => { return Err(ErrorCode::AllocationFailure); },
    };
    if bytes.len() > held.len() - 8 {
        return Err(ErrorCode::AllocationFailure);
    }
    let data = write_over(held.as_slice(), bytes.as_slice());
    proof {
        lemma_written_is_stored(record@, held@);
    }
    ctx.prediction.data = Some(data);
    Ok(())
}

/// The size policy: a record that can be written fits into the space
/// reserved for its symbol exactly when its payload takes no more than the
/// allowance, however long the symbol is. A payload takes 33 bytes, eight
/// more for each predicted price, and the bytes of its trend.
pub proof fn fitting_is_up_to_the_payload(record: PredictionView)
    requires
        record_fits(record),
    ensures
        8 + record_bytes(record).len() <= space_for(encode_utf8(record.symbol).len())
            <==> data_bytes(record.prediction_data).len() <= PAYLOAD_ALLOWANCE,
        data_bytes(record.prediction_data).len() == 33 + 8
            * record.prediction_data.predicted_prices.len() + encode_utf8(
            record.prediction_data.trend,
        ).len(),
{
    lemma_record_bytes_len(record);
    lemma_data_bytes_len(record.prediction_data);
}

/// Sending the same payload again changes the time and nothing else: after
/// an update that left `held` in the slot, a second update with the same
/// payload succeeds, and the slot then holds the same bytes but for the
/// time of the last write.
pub proof fn repeated_update_refreshes_the_time(
    first: UpdatePrediction,
    stored: PredictionView,
    data: PredictionDataView,
    at: i64,
    held: Seq<u8>,
    second: UpdatePrediction,
    again_at: i64,
)
    requires
        first.prediction.record() == Some(stored),
        updated(first, data, at) == Ok::<Seq<u8>, ErrorCode>(held),
        second.prediction.data matches Some(stands) && stands@ == held,
        second.program_id == first.program_id,
        second.authority == first.authority,
        second.prediction.address == first.prediction.address,
    ensures
        ({
            let record = PredictionView {
                authority: stored.authority,
                symbol: stored.symbol,
                prediction_data: data,
                timestamp: again_at,
            };
            let then = written(record_bytes(record), held);
            &&& updated(second, data, again_at) == Ok::<Seq<u8>, ErrorCode>(then)
            &&& stored_record(then) == Some(record)
            &&& again_at == at ==> then == held
        }),
{
    let before = first.prediction.data->0@;
    let once = PredictionView {
        authority: stored.authority,
        symbol: stored.symbol,
        prediction_data: data,
        timestamp: at,
    };
    let twice = PredictionView {
        authority: stored.authority,
        symbol: stored.symbol,
        prediction_data: data,
        timestamp: again_at,
    };
    lemma_written_is_stored(once, before);
    lemma_record_bytes_len(once);
    lemma_record_bytes_len(twice);
    lemma_written_is_stored(twice, held);
    if again_at == at {
        assert(written(record_bytes(twice), held) =~= held);
    }
}

/// Only the owner updates: an update is refused as unauthorised exactly
/// when the slot holds a record whose owner is not the authorising
/// identity.
pub proof fn unauthorized_iff_foreign_owner(
    ctx: UpdatePrediction,
    data: PredictionDataView,
    now: i64,
)
    ensures
        updated(ctx, data, now) == Err::<Seq<u8>, ErrorCode>(ErrorCode::Unauthorized) <==> {
            &&& ctx.prediction.record() matches Some(stored)
            &&& stored.authority != ctx.authority@
        },
{
}

/// A record is created only at its own address: where an address can be
/// derived and the slot stands elsewhere, creation is refused for that.
pub proof fn creation_elsewhere_is_refused(
    ctx: InitializePrediction,
    symbol: Seq<char>,
    data: PredictionDataView,
    now: i64,
    address: Seq<u8>,
    bump: u8,
)
    requires
        derived_address(ctx.program_id@, ctx.authority@, symbol) == Ok::<
            (Seq<u8>, u8),
            ErrorCode,
        >((address, bump)),
        address != ctx.prediction.address@,
    ensures
        created(ctx, symbol, data, now) == Err::<Seq<u8>, ErrorCode>(ErrorCode::AddressMismatch),
{
}

/// A symbol is never cut short: one of more than `MAX_SEED_LEN` bytes has
/// no address, so no record is created under it, and a record that is
/// created holds the symbol as it was given.
pub proof fn symbol_is_kept_whole(
    ctx: InitializePrediction,
    symbol: Seq<char>,
    data: PredictionDataView,
    now: i64,
)
    ensures
        encode_utf8(symbol).len() > MAX_SEED_LEN ==> created(ctx, symbol, data, now) == Err::<
            Seq<u8>,
            ErrorCode,
        >(ErrorCode::DerivationExhausted),
        created(ctx, symbol, data, now) matches Ok(held) ==> {
            &&& encode_utf8(symbol).len() <= MAX_SEED_LEN
            &&& stored_record(held) matches Some(record)
            &&& record.symbol == symbol
        },
{
    if created(ctx, symbol, data, now) is Ok {
        let record = PredictionView {
            authority: ctx.authority@,
            symbol,
            prediction_data: data,
            timestamp: now,
        };
        lemma_written_is_stored(record, blank(space_for(encode_utf8(symbol).len())));
    }
}

/// An update that follows a creation: where the slot holds what a creation
/// left in it, the owner's update succeeds exactly when the new record
/// fits into the space reserved at creation, and the slot then holds the
/// same owner and symbol with the new payload and the new time.
pub proof fn update_follows_creation(
    first: InitializePrediction,
    symbol: Seq<char>,
    data: PredictionDataView,
    created_at: i64,
    held: Seq<u8>,
    then: UpdatePrediction,
    new_data: PredictionDataView,
    updated_at: i64,
)
    requires
        created(first, symbol, data, created_at) == Ok::<Seq<u8>, ErrorCode>(held),
        then.prediction.data matches Some(stands) && stands@ == held,
        then.program_id == first.program_id,
        then.authority == first.authority,
        then.prediction.address == first.prediction.address,
    ensures
        ({
            let record = PredictionView {
                authority: first.authority@,
                symbol,
                prediction_data: new_data,
                timestamp: updated_at,
            };
            let fits = record_fits(record) && 8 + record_bytes(record).len() <= space_for(
                encode_utf8(symbol).len(),
            );
            match updated(then, new_data, updated_at) {
                Ok(data) => fits && stored_record(data) == Some(record),
                Err(e) => !fits && e == ErrorCode::AllocationFailure,
            }
        }),
{
    let size = space_for(encode_utf8(symbol).len());
    let old_record = PredictionView {
        authority: first.authority@,
        symbol,
        prediction_data: data,
        timestamp: created_at,
    };
    lemma_written_is_stored(old_record, blank(size));
    let record = PredictionView {
        authority: first.authority@,
        symbol,
        prediction_data: new_data,
        timestamp: updated_at,
    };
    if record_fits(record) && 8 + record_bytes(record).len() <= size {
        lemma_written_is_stored(record, held);
    }
}

} // verus!
