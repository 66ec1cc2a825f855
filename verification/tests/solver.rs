use gate_lock::addressing::compute_slot;
use gate_lock::errors::SolveError;
use gate_lock::pipeline::{solve, CallExecutor, MAPPING_BASE_SLOT, TOTAL_LENGTH_SLOT};
use gate_lock::store::{MemStore, Overlay, WordStore};
use gate_lock::traversal::traverse;
use gate_lock::verification::{encode_solved_query, CallOutcome};
use gate_lock::word::Word256;

fn w64(x: u64) -> Word256 {
    Word256 { l0: x, l1: 0, l2: 0, l3: 0 }
}

fn node_word(short: u64, medium: u64) -> Word256 {
    Word256 { l0: short, l1: medium, l2: 0, l3: 0 }
}

fn put_node(store: &mut MemStore, key: u64, short: u64, medium: u64) {
    let slot = compute_slot(&w64(key), &w64(MAPPING_BASE_SLOT));
    store.set(&slot, &node_word(short, medium));
}

fn set_total(store: &mut MemStore, total: u64) {
    store.set(&w64(TOTAL_LENGTH_SLOT), &w64(total));
}

// Behaves like the lock contract: every listed node must be unlocked in
// the staged view and the list must match the declared length; the answer
// comes back as a 32-byte boolean word.
struct EmulatedGate {
    called: bool,
    last_payload: Vec<u8>,
}

impl EmulatedGate {
    fn new() -> EmulatedGate {
        EmulatedGate { called: false, last_payload: Vec::new() }
    }
}

impl CallExecutor<MemStore> for EmulatedGate {
    fn execute(
        &mut self,
        store: &Overlay<MemStore>,
        payload: &Vec<u8>,
    ) -> Result<CallOutcome, SolveError> {
        self.called = true;
        self.last_payload = payload.clone();
        let mut ok = payload.len() >= 68;
        let mut count: u64 = 0;
        if ok {
            let mut len_bytes = [0u8; 8];
            len_bytes.copy_from_slice(&payload[60..68]);
            count = u64::from_be_bytes(len_bytes);
            ok = payload.len() == 68 + 32 * count as usize;
        }
        if ok {
            let total = store.read(&w64(TOTAL_LENGTH_SLOT))?;
            ok = total == w64(count);
        }
        if ok {
            for i in 0..count as usize {
                let chunk = payload[68 + 32 * i..68 + 32 * (i + 1)].to_vec();
                let id = Word256::from_be_bytes(&chunk);
                let slot = compute_slot(&id, &w64(MAPPING_BASE_SLOT));
                let word = store.read(&slot)?;
                if (word.l3 >> 32) & 1 != 1 {
                    ok = false;
                }
            }
        }
        let mut output = vec![0u8; 32];
        if ok {
            output[31] = 1;
        }
        Ok(CallOutcome::Success { output })
    }
}

#[test]
fn empty_chain_still_issues_the_call() {
    let mut store = MemStore::new();
    set_total(&mut store, 0);
    let mut gate = EmulatedGate::new();
    let verdict = solve(store, &mut gate).unwrap();
    assert!(gate.called);
    assert!(verdict);
    // the payload carries an empty key list
    assert_eq!(gate.last_payload, encode_solved_query(&Vec::new()));
}

#[test]
fn three_even_nodes_unlock() {
    let mut store = MemStore::new();
    set_total(&mut store, 3);
    // every short field even: the walk follows 0 -> 4 -> 6, then reads an
    // empty slot at key 8
    put_node(&mut store, 0, 4, 1000);
    put_node(&mut store, 4, 6, 1001);
    put_node(&mut store, 6, 8, 1002);
    let mut gate = EmulatedGate::new();
    let verdict = solve(store, &mut gate).unwrap();
    assert!(gate.called);
    assert!(verdict);
    assert_eq!(gate.last_payload, encode_solved_query(&vec![w64(0), w64(4), w64(6)]));
}

#[test]
fn odd_short_field_routes_through_medium() {
    let mut store = MemStore::new();
    set_total(&mut store, 3);
    put_node(&mut store, 0, 4, 1000);
    // node 2's short field is odd: the next hop must be its medium field 9
    put_node(&mut store, 4, 7, 9);
    put_node(&mut store, 9, 10, 1002);
    // a decoy at the odd short field's own key: following it would derail
    put_node(&mut store, 7, 12, 1003);
    let mut gate = EmulatedGate::new();
    let verdict = solve(store, &mut gate).unwrap();
    assert!(gate.called);
    assert!(verdict);
    assert_eq!(gate.last_payload, encode_solved_query(&vec![w64(0), w64(4), w64(9)]));
}

#[test]
fn early_terminator_is_malformed_and_skips_the_call() {
    let mut store = MemStore::new();
    // the chain declares five nodes but ends after three real records
    set_total(&mut store, 5);
    put_node(&mut store, 0, 4, 1000);
    put_node(&mut store, 4, 6, 1001);
    put_node(&mut store, 6, 8, 1002);
    let mut gate = EmulatedGate::new();
    let err = solve(store, &mut gate).unwrap_err();
    match err {
        SolveError::MalformedChain { visited } => {
            assert_eq!(visited.len(), 3);
            assert_eq!(visited, vec![w64(0), w64(4), w64(6)]);
        },
        other => panic!("expected a malformed chain, got {:?}", other),
    }
    assert!(!gate.called);
}

#[test]
fn chain_longer_than_declared_is_malformed() {
    let mut store = MemStore::new();
    set_total(&mut store, 2);
    put_node(&mut store, 0, 4, 1000);
    put_node(&mut store, 4, 6, 1001);
    put_node(&mut store, 6, 8, 1002);
    let mut gate = EmulatedGate::new();
    let err = solve(store, &mut gate).unwrap_err();
    assert!(matches!(err, SolveError::MalformedChain { .. }));
    assert!(!gate.called);
}

#[test]
fn self_loop_is_malformed() {
    let mut store = MemStore::new();
    set_total(&mut store, 3);
    put_node(&mut store, 0, 4, 1000);
    // this node points back at its own key
    put_node(&mut store, 4, 4, 1001);
    let mut gate = EmulatedGate::new();
    let err = solve(store, &mut gate).unwrap_err();
    match err {
        SolveError::MalformedChain { visited } => {
            assert_eq!(visited, vec![w64(0), w64(4)]);
        },
        other => panic!("expected a malformed chain, got {:?}", other),
    }
    assert!(!gate.called);
}

#[test]
fn read_fault_aborts_with_store_access() {
    let mut store = MemStore::new();
    set_total(&mut store, 3);
    put_node(&mut store, 0, 4, 1000);
    put_node(&mut store, 4, 6, 1001);
    put_node(&mut store, 6, 8, 1002);
    // the second node's slot fails every read
    let bad = compute_slot(&w64(4), &w64(MAPPING_BASE_SLOT));
    store.poison(&bad);
    let mut gate = EmulatedGate::new();
    let err = solve(store, &mut gate).unwrap_err();
    assert!(matches!(err, SolveError::StoreAccess));
    assert!(!gate.called);
}

#[test]
fn unreadable_length_slot_aborts_with_store_access() {
    let mut store = MemStore::new();
    set_total(&mut store, 1);
    put_node(&mut store, 0, 2, 1000);
    store.poison(&w64(TOTAL_LENGTH_SLOT));
    let mut gate = EmulatedGate::new();
    let err = solve(store, &mut gate).unwrap_err();
    assert!(matches!(err, SolveError::StoreAccess));
    assert!(!gate.called);
}

#[test]
fn oversized_declared_length_is_malformed() {
    let mut store = MemStore::new();
    let huge = Word256 { l0: 0, l1: 1, l2: 0, l3: 0 };
    store.set(&w64(TOTAL_LENGTH_SLOT), &huge);
    let mut gate = EmulatedGate::new();
    let err = solve(store, &mut gate).unwrap_err();
    assert!(matches!(err, SolveError::MalformedChain { .. }));
    assert!(!gate.called);
}

#[test]
fn traverse_reports_keys_in_visit_order() {
    let mut store = MemStore::new();
    put_node(&mut store, 0, 3, 21);
    put_node(&mut store, 21, 2, 500);
    // terminator: nothing written at key 2's slot
    let visited = traverse(&store, &w64(MAPPING_BASE_SLOT), 2).unwrap();
    assert_eq!(visited, vec![w64(0), w64(21)]);
}

#[test]
fn staged_writes_shadow_reads_and_leave_the_rest() {
    let mut store = MemStore::new();
    store.set(&w64(10), &w64(111));
    store.set(&w64(11), &w64(222));
    let mut overlay = Overlay::new(store);
    overlay.stage(&w64(10), &w64(999));
    assert_eq!(overlay.read(&w64(10)).unwrap(), w64(999));
    assert_eq!(overlay.read(&w64(11)).unwrap(), w64(222));
    assert_eq!(overlay.read(&w64(12)).unwrap(), w64(0));
}

#[test]
fn staging_twice_equals_staging_once() {
    let mut store = MemStore::new();
    set_total(&mut store, 2);
    put_node(&mut store, 0, 4, 1000);
    put_node(&mut store, 4, 6, 1001);
    let base = w64(MAPPING_BASE_SLOT);
    let visited = traverse(&store, &base, 2).unwrap();
    let mut overlay = Overlay::new(store);
    gate_lock::mutation::stage_all(&mut overlay, &visited, &base).unwrap();
    let slot0 = compute_slot(&w64(0), &base);
    let slot4 = compute_slot(&w64(4), &base);
    let once0 = overlay.read(&slot0).unwrap();
    let once4 = overlay.read(&slot4).unwrap();
    // the flag sits at bit 224 now
    assert_eq!(once0.l3 >> 32, 1);
    assert_eq!(once4.l3 >> 32, 1);
    gate_lock::mutation::stage_all(&mut overlay, &visited, &base).unwrap();
    assert_eq!(overlay.read(&slot0).unwrap(), once0);
    assert_eq!(overlay.read(&slot4).unwrap(), once4);
}
