use std::path::PathBuf;
use std::time::Duration;

use miden_client::cli::{CliAccountStorageMode, CliAccountType, NewWalletCmd};
use miden_client::errors::IdPrefixFetchError;
use miden_client::node_builder::{
    NodeBuilder, DEFAULT_BATCH_INTERVAL, DEFAULT_BLOCK_INTERVAL, DEFAULT_RPC_PORT,
};

#[test]
fn node_builder_defaults_and_setters() {
    let b = NodeBuilder::new(PathBuf::from("/tmp/node"));
    assert_eq!(b.rpc_port, DEFAULT_RPC_PORT);
    assert_eq!(b.block_interval, Duration::from_millis(DEFAULT_BLOCK_INTERVAL));
    assert_eq!(b.batch_interval, Duration::from_millis(DEFAULT_BATCH_INTERVAL));
    let b = b
        .with_block_interval(Duration::from_millis(10))
        .with_batch_interval(Duration::from_millis(5))
        .with_rpc_port(4000);
    assert_eq!(b.block_interval, Duration::from_millis(10));
    assert_eq!(b.batch_interval, Duration::from_millis(5));
    assert_eq!(b.rpc_port, 4000);
    assert_eq!(b.data_directory, PathBuf::from("/tmp/node"));
}

#[test]
fn wallet_type_follows_mutability() {
    let mut cmd = NewWalletCmd {
        storage_mode: CliAccountStorageMode::Private,
        mutable: false,
        extra_components: vec![],
        init_storage_data_path: None,
        deploy: false,
    };
    assert_eq!(cmd.account_type(), CliAccountType::RegularAccountImmutableCode);
    cmd.mutable = true;
    assert_eq!(cmd.account_type(), CliAccountType::RegularAccountUpdatableCode);
}

#[test]
fn id_prefix_errors_have_messages() {
    assert_eq!(
        IdPrefixFetchError::NoMatch("note ID prefix 0x12".to_string()).message(),
        "no matches were found with the note ID prefix 0x12"
    );
    assert_eq!(
        IdPrefixFetchError::MultipleMatches("account ID prefix 0x3".to_string()).message(),
        "found more than one element for the provided account ID prefix 0x3 and only one match is expected"
    );
}
