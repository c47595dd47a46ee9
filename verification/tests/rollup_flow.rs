use merkle_rollup::{Account, RollupCircuit, RollupState, Transaction};

#[test]
fn test_account_creation() {
    let account = Account { balance: 1000, nonce: 0 };
    assert_eq!(account.balance, 1000);
    assert_eq!(account.nonce, 0);
}

#[test]
fn test_state_management() {
    let mut state = RollupState::new(32);

    // Create and add an account
    let account1 = Account { balance: 1000, nonce: 0 };

    state.update_account(0, account1.clone()).unwrap();

    // Verify account retrieval
    let retrieved_account = state.get_account(0).unwrap();
    assert_eq!(retrieved_account.balance, account1.balance);
    assert_eq!(retrieved_account.nonce, account1.nonce);
}

#[test]
fn test_transaction_processing() {
    // Initialize state
    let mut state = RollupState::new(32);

    // Create accounts
    let account1 = Account { balance: 1000, nonce: 0 };
    let account2 = Account { balance: 0, nonce: 0 };

    // Add accounts to state
    state.update_account(0, account1.clone()).unwrap();
    state.update_account(1, account2.clone()).unwrap();

    // Create transaction
    let transaction = Transaction { from: 0, to: 1, amount: 100, nonce: 0 };

    // Get merkle path and root
    let merkle_path = state.get_merkle_path(transaction.from).unwrap();
    let old_root = state.get_root();

    // Create circuit instance
    let circuit = RollupCircuit::process_transaction(
        account1,
        account2,
        transaction,
        merkle_path,
        old_root,
    )
    .unwrap();

    // Test constraint generation
    let cs = circuit.generate_constraints();

    // Verify constraints are satisfied
    assert!(cs.is_satisfied());
}

#[test]
fn test_invalid_transaction() {
    // Initialize state
    let mut state = RollupState::new(32);

    // Create account with insufficient balance
    let account1 = Account { balance: 50, nonce: 0 };
    let account2 = Account { balance: 0, nonce: 0 };

    state.update_account(0, account1.clone()).unwrap();
    state.update_account(1, account2.clone()).unwrap();

    // Create transaction with amount greater than balance
    let transaction = Transaction { from: 0, to: 1, amount: 100, nonce: 0 };

    let merkle_path = state.get_merkle_path(transaction.from).unwrap();
    let old_root = state.get_root();

    // This should return an error
    let result = RollupCircuit::process_transaction(
        account1,
        account2,
        transaction,
        merkle_path,
        old_root,
    );

    assert!(result.is_err());
}

#[test]
fn test_complete_rollup_flow() {
    let mut state = RollupState::new(32);

    // Setup initial accounts
    let initial_accounts = vec![
        (0usize, Account { balance: 1000, nonce: 0 }),
        (1usize, Account { balance: 500, nonce: 0 }),
        (2usize, Account { balance: 200, nonce: 0 }),
    ];

    // Initialize accounts in state
    for (idx, account) in initial_accounts {
        state.update_account(idx, account).unwrap();
    }

    // Create and process multiple transactions
    let transactions = vec![
        Transaction { from: 0, to: 1, amount: 100, nonce: 0 },
        Transaction { from: 1, to: 2, amount: 50, nonce: 0 },
    ];

    // Process each transaction
    for tx in transactions {
        let from_account = *state.get_account(tx.from).unwrap();
        let to_account = *state.get_account(tx.to).unwrap();
        let merkle_path = state.get_merkle_path(tx.from).unwrap();
        let old_root = state.get_root();

        let circuit = RollupCircuit::process_transaction(
            from_account.clone(),
            to_account.clone(),
            tx.clone(),
            merkle_path,
            old_root,
        )
        .unwrap();

        // Verify constraints
        let cs = circuit.generate_constraints();
        assert!(cs.is_satisfied());

        // Update state
        state
            .update_account(
                tx.from,
                Account {
                    balance: from_account.balance - tx.amount,
                    nonce: from_account.nonce + 1,
                },
            )
            .unwrap();
        state
            .update_account(
                tx.to,
                Account { balance: to_account.balance + tx.amount, nonce: to_account.nonce },
            )
            .unwrap();
    }

    // Verify final balances
    let final_account0 = state.get_account(0).unwrap();
    let final_account1 = state.get_account(1).unwrap();
    let final_account2 = state.get_account(2).unwrap();

    assert_eq!(final_account0.balance, 900); // 1000 - 100
    assert_eq!(final_account1.balance, 550); // 500 + 100 - 50
    assert_eq!(final_account2.balance, 250); // 200 + 50
}
