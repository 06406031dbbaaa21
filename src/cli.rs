//! Options of the commands that create accounts.
use std::path::PathBuf;

use vstd::prelude::*;

verus! {

#[verifier::external_type_specification]
#[verifier::external_body]
pub struct ExPathBuf(PathBuf);

/// Where an account's state is kept.
#[derive(Clone, Copy, Debug, PartialEq, Eq, Structural)]
pub enum CliAccountStorageMode {
    Private,
    Public,
}

/// The kinds of account that can be created.
#[derive(Clone, Copy, Debug, PartialEq, Eq, PartialOrd, Ord, Structural)]
pub enum CliAccountType {
    FungibleFaucet,
    NonFungibleFaucet,
    RegularAccountImmutableCode,
    RegularAccountUpdatableCode,
}

/// Options of the command that creates a wallet account.
#[derive(Clone, Debug)]
pub struct NewWalletCmd {
    /// Storage mode of the account.
    pub storage_mode: CliAccountStorageMode,
    /// Whether the account code can be updated.
    pub mutable: bool,
    /// Files of additional components to add to the account.
    pub extra_components: Vec<PathBuf>,
    /// File of key/values that initialize templated storage.
    pub init_storage_data_path: Option<PathBuf>,
    /// Whether to deploy the wallet by submitting an authentication transaction.
    pub deploy: bool,
}

/// Options of the command that creates an account of any type.
#[derive(Clone, Debug)]
pub struct NewAccountCmd {
    /// Storage mode of the account.
    pub storage_mode: CliAccountStorageMode,
    /// Account type to create.
    pub account_type: CliAccountType,
    /// Files of the component templates of the account.
    pub component_templates: Vec<PathBuf>,
    /// File of key/values that initialize templated storage.
    pub init_storage_data_path: Option<PathBuf>,
    /// Whether to deploy the account by submitting an authentication transaction.
    pub deploy: bool,
}

impl NewWalletCmd {
    /// The account type of the wallet: regular, with updatable code exactly when `mutable`.
    pub fn account_type(&self) -> (r: CliAccountType)
        ensures
            r == (if self.mutable {
                CliAccountType::RegularAccountUpdatableCode
            } else {
                CliAccountType::RegularAccountImmutableCode
            }),
    {
        if self.mutable {
            CliAccountType::RegularAccountUpdatableCode
        } else {
            CliAccountType::RegularAccountImmutableCode
        }
    }
}

} // verus!
