use vstd::prelude::*;

mod api;
mod codec;
mod config;
mod events;
mod queries;
mod sync;
mod vault;

pub use api::AddressResponse;
pub use api::AddressesResponse;
pub use api::BalanceResponse;
pub use codec::EncryptedMnemonic;
pub use codec::decode_record;
pub use codec::encode_record;
pub use config::Environment;
pub use config::Settings;
pub use config::btcd_password;
pub use config::btcd_url;
pub use config::btcd_username;
pub use config::environment;
pub use config::port;
pub use config::publisher_bind_address;
pub use config::wallet_pw;
pub use events::ChainEvent;
pub use events::encode_event;
pub use events::frame_event;
pub use events::topic_of;
pub use events::u64_to_dec;
pub use queries::get_addresses_with_balance;
pub use queries::get_all_addresses;
pub use queries::get_change_addresses;
pub use queries::str_lt;
pub use sync::BlockInfo;
pub use sync::BlockOutcome;
pub use sync::OutputInfo;
pub use sync::SyncError;
pub use sync::SyncHandle;
pub use sync::SyncSession;
pub use sync::TxInfo;
pub use sync::detect_deposits;
pub use vault::MnemonicStorage;
pub use vault::VaultError;

verus! {

} // verus!
