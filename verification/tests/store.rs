use kronos_dapp::store::{
    has_tag, read_stored, FIXED_SPACE, HEADER_SPACE, PAYLOAD_ALLOWANCE, RECORD_TAG,
};
use kronos_dapp::{
    derive_address, initialize_prediction, space, update_prediction, ErrorCode,
    InitializePrediction, Prediction, PredictionData, Slot, UpdatePrediction,
};
use sha2::{Digest, Sha256};

const T_CREATE: i64 = 1_700_000_000;
const T_UPDATE: i64 = 1_700_000_600;

fn program() -> [u8; 32] {
    let mut id = [0u8; 32];
    id[0] = 7;
    id[31] = 9;
    id
}

fn owner() -> [u8; 32] {
    [21u8; 32]
}

fn payload() -> PredictionData {
    PredictionData {
        current_price: 187.5f64.to_bits(),
        predicted_prices: vec![188.0f64.to_bits(), 189.25f64.to_bits(), 186.0f64.to_bits()],
        confidence: 0.82f64.to_bits(),
        prediction_days: 3,
        volatility: 0.014f64.to_bits(),
        trend: "bullish".to_string(),
    }
}

fn second_payload() -> PredictionData {
    PredictionData {
        current_price: 190.0f64.to_bits(),
        predicted_prices: vec![191.5f64.to_bits()],
        confidence: 0.4f64.to_bits(),
        prediction_days: 1,
        volatility: 0.2f64.to_bits(),
        trend: "flat".to_string(),
    }
}

fn payload_of(prices: usize, trend: usize) -> PredictionData {
    PredictionData {
        current_price: 1,
        predicted_prices: vec![2; prices],
        confidence: 3,
        prediction_days: 4,
        volatility: 5,
        trend: "t".repeat(trend),
    }
}

fn fresh(symbol: &str) -> InitializePrediction {
    let (address, _) = derive_address(&program(), &owner(), symbol).unwrap();
    InitializePrediction {
        program_id: program(),
        prediction: Slot::vacant(address),
        authority: owner(),
    }
}

fn created(symbol: &str) -> Slot {
    let mut ctx = fresh(symbol);
    assert_eq!(
        initialize_prediction(&mut ctx, symbol.to_string(), payload(), T_CREATE),
        Ok(())
    );
    ctx.prediction
}

fn update_by(slot: Slot, authority: [u8; 32]) -> UpdatePrediction {
    UpdatePrediction { program_id: program(), prediction: slot, authority }
}

#[test]
fn record_tag_marks_the_account_type() {
    let digest = Sha256::digest(b"account:Prediction");
    assert_eq!(&digest[..8], &RECORD_TAG[..]);
}

#[test]
fn space_is_the_fixed_part_plus_the_symbol() {
    assert_eq!(HEADER_SPACE, 48);
    assert_eq!(PAYLOAD_ALLOWANCE, 328);
    assert_eq!(FIXED_SPACE, 380);
    assert_eq!(space(0), 380);
    assert_eq!(space(4), 8 + 32 + 4 + 4 + 8 + (32 * 10) + 8);
    assert_eq!(space(32), 412);
}

#[test]
fn create_then_read() {
    let mut ctx = fresh("AAPL");
    let address = ctx.prediction.address;
    assert_eq!(ctx.prediction.read(), None);
    assert_eq!(
        initialize_prediction(&mut ctx, "AAPL".to_string(), payload(), T_CREATE),
        Ok(())
    );
    assert_eq!(
        ctx.prediction.read(),
        Some(Prediction {
            authority: owner(),
            symbol: "AAPL".to_string(),
            prediction_data: payload(),
            timestamp: T_CREATE,
        })
    );
    assert_eq!(ctx.prediction.address, address);
    assert_eq!(ctx.authority, owner());
    assert_eq!(ctx.program_id, program());
}

#[test]
fn create_reserves_the_space_of_the_size_policy() {
    let slot = created("AAPL");
    let data = slot.data.unwrap();
    assert_eq!(data.len(), 384);
    assert_eq!(&data[..8], &RECORD_TAG[..]);
    let record = Prediction {
        authority: owner(),
        symbol: "AAPL".to_string(),
        prediction_data: payload(),
        timestamp: T_CREATE,
    };
    let bytes = record.serialize().unwrap();
    assert_eq!(&data[8..8 + bytes.len()], &bytes[..]);
    assert!(data[8 + bytes.len()..].iter().all(|b| *b == 0));
}

#[test]
fn update_replaces_payload_and_time() {
    let mut ctx = update_by(created("AAPL"), owner());
    let address = ctx.prediction.address;
    assert_eq!(update_prediction(&mut ctx, second_payload(), T_UPDATE), Ok(()));
    let record = ctx.prediction.read().unwrap();
    assert_eq!(record.prediction_data, second_payload());
    assert_eq!(record.timestamp, T_UPDATE);
    assert!(record.timestamp >= T_CREATE);
    assert_eq!(record.authority, owner());
    assert_eq!(record.symbol, "AAPL");
    assert_eq!(ctx.prediction.address, address);
    assert_eq!(ctx.prediction.data.unwrap().len(), 384);
}

#[test]
fn update_with_the_same_payload_refreshes_the_time() {
    let mut ctx = update_by(created("AAPL"), owner());
    assert_eq!(update_prediction(&mut ctx, second_payload(), T_UPDATE), Ok(()));
    let first = ctx.prediction.read().unwrap();
    assert_eq!(update_prediction(&mut ctx, second_payload(), T_UPDATE + 5), Ok(()));
    let second = ctx.prediction.read().unwrap();
    assert_eq!(second.prediction_data, first.prediction_data);
    assert_eq!(second.symbol, first.symbol);
    assert_eq!(second.authority, first.authority);
    assert_eq!(second.timestamp, T_UPDATE + 5);
}

#[test]
fn update_with_the_same_payload_and_time_changes_nothing() {
    let mut ctx = update_by(created("AAPL"), owner());
    assert_eq!(update_prediction(&mut ctx, second_payload(), T_UPDATE), Ok(()));
    let once = ctx.prediction.clone();
    assert_eq!(update_prediction(&mut ctx, second_payload(), T_UPDATE), Ok(()));
    assert_eq!(ctx.prediction, once);
}

#[test]
fn payload_allowance_counts_prices_and_trend() {
    // 33 bytes, eight for each price, and the trend's own: 33 + 8 * 36 + 7 = 328.
    let mut out = Vec::new();
    assert!(payload_of(36, 7).put(&mut out));
    assert_eq!(out.len(), PAYLOAD_ALLOWANCE);
    let record = Prediction {
        authority: owner(),
        symbol: "AAPL".to_string(),
        prediction_data: payload_of(36, 7),
        timestamp: T_CREATE,
    };
    assert_eq!(8 + record.serialize().unwrap().len(), space(4));
}

#[test]
fn update_writes_over_the_start_and_keeps_the_rest() {
    let slot = created("AAPL");
    let before = slot.data.clone().unwrap();
    let mut ctx = update_by(slot, owner());
    assert_eq!(update_prediction(&mut ctx, second_payload(), T_UPDATE), Ok(()));
    let after = ctx.prediction.data.clone().unwrap();
    let written = 8 + ctx.prediction.read().unwrap().serialize().unwrap().len();
    assert_eq!(after.len(), before.len());
    assert_eq!(&after[written..], &before[written..]);
    assert_ne!(&after[..written], &before[..written]);
}

#[test]
fn update_by_another_identity_is_unauthorized() {
    let slot = created("AAPL");
    let before = slot.clone();
    let mut ctx = update_by(slot, [22u8; 32]);
    assert_eq!(
        update_prediction(&mut ctx, second_payload(), T_UPDATE),
        Err(ErrorCode::Unauthorized)
    );
    assert_eq!(ctx.prediction, before);
    let record = ctx.prediction.read().unwrap();
    assert_eq!(record.prediction_data, payload());
    assert_eq!(record.timestamp, T_CREATE);
    assert_eq!(record.authority, owner());
}

#[test]
fn create_at_another_address_is_a_mismatch() {
    let mut ctx = fresh("AAPL");
    ctx.prediction.address[5] ^= 1;
    let before = ctx.clone();
    assert_eq!(
        initialize_prediction(&mut ctx, "AAPL".to_string(), payload(), T_CREATE),
        Err(ErrorCode::AddressMismatch)
    );
    assert_eq!(ctx, before);
    assert_eq!(ctx.prediction.data, None);
    assert_eq!(ctx.prediction.read(), None);
}

#[test]
fn create_under_another_symbol_is_a_mismatch() {
    let mut ctx = fresh("AAPL");
    assert_eq!(
        initialize_prediction(&mut ctx, "AAPM".to_string(), payload(), T_CREATE),
        Err(ErrorCode::AddressMismatch)
    );
    assert_eq!(ctx.prediction.data, None);
}

#[test]
fn create_for_another_owner_is_a_mismatch() {
    let mut ctx = fresh("AAPL");
    ctx.authority = [22u8; 32];
    assert_eq!(
        initialize_prediction(&mut ctx, "AAPL".to_string(), payload(), T_CREATE),
        Err(ErrorCode::AddressMismatch)
    );
    assert_eq!(ctx.prediction.data, None);
}

#[test]
fn create_in_an_occupied_slot_fails() {
    let slot = created("AAPL");
    let before = slot.clone();
    let mut ctx = InitializePrediction {
        program_id: program(),
        prediction: slot,
        authority: owner(),
    };
    assert_eq!(
        initialize_prediction(&mut ctx, "AAPL".to_string(), second_payload(), T_UPDATE),
        Err(ErrorCode::AllocationFailure)
    );
    assert_eq!(ctx.prediction, before);
    let mut ctx = fresh("AAPL");
    ctx.prediction.data = Some(Vec::new());
    assert_eq!(
        initialize_prediction(&mut ctx, "AAPL".to_string(), payload(), T_CREATE),
        Err(ErrorCode::AllocationFailure)
    );
    assert_eq!(ctx.prediction.data, Some(Vec::new()));
}

#[test]
fn create_with_a_symbol_longer_than_a_seed_fails() {
    let symbol = "S".repeat(33);
    let mut ctx = InitializePrediction {
        program_id: program(),
        prediction: Slot::vacant([1u8; 32]),
        authority: owner(),
    };
    assert_eq!(
        initialize_prediction(&mut ctx, symbol, payload(), T_CREATE),
        Err(ErrorCode::DerivationExhausted)
    );
    assert_eq!(ctx.prediction, Slot::vacant([1u8; 32]));
}

#[test]
fn create_with_the_empty_symbol() {
    let slot = created("");
    assert_eq!(slot.data.as_ref().unwrap().len(), 380);
    let record = slot.read().unwrap();
    assert_eq!(record.symbol, "");
    assert_eq!(record.prediction_data, payload());
}

#[test]
fn create_with_the_longest_symbol() {
    let symbol = "L".repeat(32);
    let slot = created(&symbol);
    assert_eq!(slot.data.as_ref().unwrap().len(), 412);
    let record = slot.read().unwrap();
    assert_eq!(record.symbol, symbol);
    let mut ctx = update_by(slot, owner());
    assert_eq!(update_prediction(&mut ctx, second_payload(), T_UPDATE), Ok(()));
    assert_eq!(ctx.prediction.read().unwrap().symbol, symbol);
}

#[test]
fn create_fills_the_allowance_exactly() {
    // The payload may take 328 bytes: 33 fixed, 8 for each price, and the trend's own.
    let mut ctx = fresh("AAPL");
    assert_eq!(
        initialize_prediction(&mut ctx, "AAPL".to_string(), payload_of(36, 7), T_CREATE),
        Ok(())
    );
    let data = ctx.prediction.data.clone().unwrap();
    assert_eq!(data.len(), 384);
    assert_eq!(ctx.prediction.read().unwrap().prediction_data, payload_of(36, 7));
    // The time of the last write ends the data.
    assert_eq!(&data[376..], &T_CREATE.to_le_bytes()[..]);
}

#[test]
fn create_refuses_a_payload_over_the_allowance() {
    let mut ctx = fresh("AAPL");
    let before = ctx.clone();
    assert_eq!(
        initialize_prediction(&mut ctx, "AAPL".to_string(), payload_of(36, 8), T_CREATE),
        Err(ErrorCode::AllocationFailure)
    );
    assert_eq!(ctx, before);
    assert_eq!(
        initialize_prediction(&mut ctx, "AAPL".to_string(), payload_of(37, 0), T_CREATE),
        Err(ErrorCode::AllocationFailure)
    );
    assert_eq!(ctx, before);
}

#[test]
fn update_refuses_a_payload_over_the_reserved_space() {
    let slot = created("AAPL");
    let before = slot.clone();
    let mut ctx = update_by(slot, owner());
    assert_eq!(
        update_prediction(&mut ctx, payload_of(36, 8), T_UPDATE),
        Err(ErrorCode::AllocationFailure)
    );
    assert_eq!(ctx.prediction, before);
    assert_eq!(ctx.prediction.read().unwrap().timestamp, T_CREATE);
    assert_eq!(update_prediction(&mut ctx, payload_of(36, 7), T_UPDATE), Ok(()));
    assert_eq!(ctx.prediction.read().unwrap().prediction_data, payload_of(36, 7));
}

#[test]
fn update_of_a_vacant_slot_fails() {
    let (address, _) = derive_address(&program(), &owner(), "AAPL").unwrap();
    let mut ctx = update_by(Slot::vacant(address), owner());
    assert_eq!(
        update_prediction(&mut ctx, second_payload(), T_UPDATE),
        Err(ErrorCode::AllocationFailure)
    );
    assert_eq!(ctx.prediction, Slot::vacant(address));
}

#[test]
fn update_of_a_slot_without_a_record_fails() {
    let (address, _) = derive_address(&program(), &owner(), "AAPL").unwrap();
    let blank = Slot { address, data: Some(vec![0u8; 384]) };
    let mut ctx = update_by(blank.clone(), owner());
    assert_eq!(
        update_prediction(&mut ctx, second_payload(), T_UPDATE),
        Err(ErrorCode::AllocationFailure)
    );
    assert_eq!(ctx.prediction, blank);
    // The tag alone is no record either.
    let mut data = RECORD_TAG.to_vec();
    data.extend_from_slice(&[0u8; 20]);
    let tagged = Slot { address, data: Some(data) };
    let mut ctx = update_by(tagged.clone(), owner());
    assert_eq!(
        update_prediction(&mut ctx, second_payload(), T_UPDATE),
        Err(ErrorCode::AllocationFailure)
    );
    assert_eq!(ctx.prediction, tagged);
}

#[test]
fn update_of_a_record_at_another_address_is_a_mismatch() {
    let mut slot = created("AAPL");
    slot.address[0] ^= 0x80;
    let before = slot.clone();
    let mut ctx = update_by(slot, owner());
    assert_eq!(
        update_prediction(&mut ctx, second_payload(), T_UPDATE),
        Err(ErrorCode::AddressMismatch)
    );
    assert_eq!(ctx.prediction, before);
}

#[test]
fn update_under_another_program_is_a_mismatch() {
    let mut ctx = update_by(created("AAPL"), owner());
    ctx.program_id = [5u8; 32];
    assert_eq!(
        update_prediction(&mut ctx, second_payload(), T_UPDATE),
        Err(ErrorCode::AddressMismatch)
    );
    assert_eq!(ctx.prediction.read().unwrap().prediction_data, payload());
}

#[test]
fn unauthorized_comes_before_the_address() {
    let mut slot = created("AAPL");
    slot.address[0] ^= 0x80;
    let mut ctx = update_by(slot, [22u8; 32]);
    assert_eq!(
        update_prediction(&mut ctx, second_payload(), T_UPDATE),
        Err(ErrorCode::Unauthorized)
    );
}

#[test]
fn has_tag_and_read_stored() {
    assert!(!has_tag(&[]));
    assert!(!has_tag(&RECORD_TAG[..7]));
    assert!(has_tag(&RECORD_TAG));
    let mut other = RECORD_TAG;
    other[7] ^= 1;
    assert!(!has_tag(&other));
    let slot = created("AAPL");
    let mut data = slot.data.clone().unwrap();
    assert_eq!(read_stored(&data), slot.read());
    data[3] ^= 1;
    assert_eq!(read_stored(&data), None);
}

#[test]
fn vacant_slot() {
    let slot = Slot::vacant([8u8; 32]);
    assert_eq!(slot.address, [8u8; 32]);
    assert_eq!(slot.data, None);
    assert_eq!(slot.read(), None);
}
