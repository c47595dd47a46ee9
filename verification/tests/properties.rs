use merkle_rollup::{
    circuit_root_from, digest_eq, leaf_digest, node_digest, root_from, validate, Account,
    CircuitValue, ConstraintSystem, PathEntry, RollupCircuit, RollupError, RollupState,
    Transaction, Window4x256,
};

#[test]
fn parity_native_and_circuit_root() {
    // the circuit-mirrored fold yields, level by level, the same digest as
    // the native one
    let path = vec![
        PathEntry { sibling: leaf_digest(7), is_right_child: false },
        PathEntry { sibling: leaf_digest(11), is_right_child: true },
        PathEntry {
            sibling: node_digest(&leaf_digest(3), &leaf_digest(4)),
            is_right_child: false,
        },
        PathEntry { sibling: leaf_digest(0), is_right_child: true },
    ];
    let native = root_from(42, &path);
    let mut cs = ConstraintSystem::new();
    let leaf_var = cs.allocate(CircuitValue::DigestVal(leaf_digest(42)));
    let root_var = circuit_root_from(&mut cs, leaf_var, &path);
    assert!(cs.is_satisfied());
    match &cs.values[root_var] {
        CircuitValue::DigestVal(d) => assert!(digest_eq(d, &native)),
        _ => panic!("the root variable must carry a digest"),
    }
}

#[test]
fn round_trip_path_recomputes_root() {
    let mut state = RollupState::new(8);
    state.update_account(3, Account { balance: 77, nonce: 1 }).unwrap();
    state.update_account(5, Account { balance: 123, nonce: 0 }).unwrap();
    let root = state.get_root();
    let path3 = state.get_merkle_path(3).unwrap();
    assert!(digest_eq(&root_from(77, &path3), &root));
    let path5 = state.get_merkle_path(5).unwrap();
    assert!(digest_eq(&root_from(123, &path5), &root));
    // an unpopulated leaf authenticates the value 0
    let path6 = state.get_merkle_path(6).unwrap();
    assert!(digest_eq(&root_from(0, &path6), &root));
}

#[test]
fn conservation_across_transfer() {
    let mut state = RollupState::new(8);
    state.update_account(0, Account { balance: 1000, nonce: 0 }).unwrap();
    state.update_account(1, Account { balance: 500, nonce: 0 }).unwrap();
    let before = state.get_account(0).unwrap().balance + state.get_account(1).unwrap().balance;
    let root = state.get_root();
    let tx = Transaction { from: 0, to: 1, amount: 250, nonce: 0 };
    state.apply_transfer(&tx, &root).unwrap();
    let after = state.get_account(0).unwrap().balance + state.get_account(1).unwrap().balance;
    assert_eq!(before, after);
    assert_eq!(state.get_account(0).unwrap().balance, 750);
    assert_eq!(state.get_account(0).unwrap().nonce, 1);
    assert_eq!(state.get_account(1).unwrap().balance, 750);
    assert_eq!(state.get_account(1).unwrap().nonce, 0);
}

#[test]
fn rejection_insufficient_balance() {
    // account 0 = {balance 50, nonce 0}; transfer amount 100
    let account = Account { balance: 50, nonce: 0 };
    let tx = Transaction { from: 0, to: 1, amount: 100, nonce: 0 };
    assert_eq!(validate(&account, &tx), Err(RollupError::InsufficientBalance));
    // regardless of the nonce
    let tx2 = Transaction { from: 0, to: 1, amount: 100, nonce: 9 };
    assert_eq!(validate(&account, &tx2), Err(RollupError::InsufficientBalance));
}

#[test]
fn rejection_nonce_mismatch() {
    let account = Account { balance: 500, nonce: 3 };
    let tx = Transaction { from: 0, to: 1, amount: 100, nonce: 4 };
    assert_eq!(validate(&account, &tx), Err(RollupError::NonceMismatch));
}

#[test]
fn verification_idempotent() {
    let mut state = RollupState::new(8);
    state.update_account(0, Account { balance: 300, nonce: 0 }).unwrap();
    let tx = Transaction { from: 0, to: 1, amount: 30, nonce: 0 };
    let path = state.get_merkle_path(0).unwrap();
    let root = state.get_root();
    let circuit = RollupCircuit::process_transaction(
        *state.get_account(0).unwrap(),
        Account { balance: 0, nonce: 0 },
        tx,
        path,
        root,
    )
    .unwrap();
    let cs = circuit.generate_constraints();
    let first = cs.is_satisfied();
    let second = cs.is_satisfied();
    assert_eq!(first, second);
    assert!(first);
    assert_eq!(circuit.check_transition(), circuit.check_transition());
}

#[test]
fn transfer_scenario_full() {
    // account 0 = {1000, 0}; account 1 = {0, 0}; transfer 100 from 0 to 1
    let mut state = RollupState::new(8);
    state.update_account(0, Account { balance: 1000, nonce: 0 }).unwrap();
    state.update_account(1, Account { balance: 0, nonce: 0 }).unwrap();
    let tx = Transaction { from: 0, to: 1, amount: 100, nonce: 0 };
    let from_account = *state.get_account(0).unwrap();
    assert_eq!(validate(&from_account, &tx), Ok(900));
    let root = state.get_root();
    let path = state.get_merkle_path(0).unwrap();
    let circuit = RollupCircuit::process_transaction(
        from_account,
        *state.get_account(1).unwrap(),
        tx,
        path,
        root.clone(),
    )
    .unwrap();
    assert_eq!(circuit.new_leaf, 900);
    assert!(circuit.check_transition());
    state.apply_transfer(&tx, &root).unwrap();
    // nonce policy of this ledger: the sender's nonce advances by one on
    // apply; the receiver's nonce is unchanged
    assert_eq!(*state.get_account(0).unwrap(), Account { balance: 900, nonce: 1 });
    assert_eq!(*state.get_account(1).unwrap(), Account { balance: 100, nonce: 0 });
}

#[test]
fn insufficient_transfer_leaves_state_unchanged() {
    // account 0 = {50, 0}; transfer amount 100: rejected, nothing mutated
    let mut state = RollupState::new(8);
    state.update_account(0, Account { balance: 50, nonce: 0 }).unwrap();
    let root = state.get_root();
    let tx = Transaction { from: 0, to: 1, amount: 100, nonce: 0 };
    assert_eq!(state.apply_transfer(&tx, &root), Err(RollupError::InsufficientBalance));
    assert!(digest_eq(&state.get_root(), &root));
    assert_eq!(state.get_account(0).unwrap().balance, 50);
}

#[test]
fn index_out_of_range_rejected() {
    let mut state = RollupState::new(4); // capacity 16
    assert_eq!(
        state.update_account(16, Account { balance: 1, nonce: 0 }),
        Err(RollupError::IndexOutOfRange)
    );
    assert!(state.get_merkle_path(16).is_err());
    assert!(state.get_merkle_path(15).is_ok());
}

#[test]
fn stale_snapshot_rejected() {
    let mut state = RollupState::new(8);
    state.update_account(0, Account { balance: 100, nonce: 0 }).unwrap();
    state.update_account(1, Account { balance: 0, nonce: 0 }).unwrap();
    let stale = state.get_root();
    state.update_account(0, Account { balance: 60, nonce: 1 }).unwrap();
    let tx = Transaction { from: 0, to: 1, amount: 10, nonce: 1 };
    assert_eq!(state.apply_transfer(&tx, &stale), Err(RollupError::StaleSnapshot));
}

#[test]
fn unsatisfiable_witness_detected() {
    // a tampered public input: the claimed old root does not commit the
    // sender's leaf
    let mut state = RollupState::new(8);
    state.update_account(0, Account { balance: 100, nonce: 0 }).unwrap();
    let path = state.get_merkle_path(0).unwrap();
    let bogus_root = leaf_digest(12345);
    let tx = Transaction { from: 0, to: 1, amount: 10, nonce: 0 };
    let circuit = RollupCircuit::process_transaction(
        Account { balance: 100, nonce: 0 },
        Account { balance: 0, nonce: 0 },
        tx,
        path,
        bogus_root,
    )
    .unwrap();
    match circuit.build_and_check() {
        Err(e) => assert_eq!(e, RollupError::Unsatisfiable),
        Ok(_) => panic!("a tampered root must not satisfy the circuit"),
    }
}

#[test]
fn digests_depend_on_inputs() {
    let a = leaf_digest(5);
    let b = leaf_digest(6);
    assert!(digest_eq(&a, &leaf_digest(5)));
    assert!(!digest_eq(&a, &b));
    // the node hash is order-sensitive
    let n1 = node_digest(&a, &b);
    let n2 = node_digest(&b, &a);
    assert!(!digest_eq(&n1, &n2));
    assert!(!digest_eq(&n1, &a));
}

#[test]
fn window_marker_dimensions() {
    assert_eq!(Window4x256::window_size(), 4);
    assert_eq!(Window4x256::num_windows(), 256);
}
