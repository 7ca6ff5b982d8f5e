//! Process configuration: the deployment environment and the settings record
//! that the rest of the service reads its endpoints and credentials from.
//!
//! The settings are constructed once at process start (outside this library,
//! where the environment and any dotenv files can be read) and passed in by
//! reference; every accessor here is a pure read.
use vstd::prelude::*;

verus! {

/// The deployment environment the service runs in.
#[derive(Debug, Clone, Copy, PartialEq, Eq, Structural)]
pub enum Environment {
    Test,
    Production,
}

impl Environment {
    /// The short name used in configuration file names and settings values.
    pub fn as_str(&self) -> (r: &'static str)
        ensures
            *self == Environment::Test ==> r@ == "test"@,
            *self == Environment::Production ==> r@ == "prod"@,
    {
        match self {
            Environment::Test => "test",
            Environment::Production => "prod",
        }
    }

    /// The environment a settings value names: `"prod"` selects production,
    /// anything else falls back to test.
    pub fn from_name(name: &str) -> (r: Environment)
        ensures
            r == spec_environment_of(name@),
    {
        let prod = "prod";
        if str_eq(name, prod) {
            Environment::Production
        } else {
            Environment::Test
        }
    }
}

/// The environment selected by a configuration value.
pub open spec fn spec_environment_of(name: Seq<char>) -> Environment {
    if name == "prod"@ {
        Environment::Production
    } else {
        Environment::Test
    }
}

/// Equality of two string slices, by their character sequences.
fn str_eq(a: &str, b: &str) -> (r: bool)
    ensures
        r == (a@ == b@),
{
    let a_owned: String = a.to_owned();
    let b_owned: String = b.to_owned();
    a_owned == b_owned
}

/// The settings the service is started with: endpoint addresses, node
/// credentials, and the wallet password.
pub struct Settings {
    pub environment: String,
    pub port: u16,
    pub publisher_bind_address: String,
    pub btcd_url: String,
    pub btcd_username: String,
    pub btcd_password: String,
    pub wallet_pw: String,
}

impl Settings {
    /// The deployment environment these settings select.
    pub fn environment(&self) -> (r: Environment)
        ensures
            r == spec_environment_of(self.environment@),
    {
        Environment::from_name(self.environment.as_str())
    }
}

/// The deployment environment the given settings select.
pub fn environment(settings: &Settings) -> (r: Environment)
    ensures
        r == spec_environment_of(settings.environment@),
{
    settings.environment()
}

/// The node RPC endpoint.
pub fn btcd_url(settings: &Settings) -> (r: &String)
    ensures
        r == settings.btcd_url,
{
    &settings.btcd_url
}

/// The node RPC user name.
pub fn btcd_username(settings: &Settings) -> (r: &String)
    ensures
        r == settings.btcd_username,
{
    &settings.btcd_username
}

/// The node RPC password.
pub fn btcd_password(settings: &Settings) -> (r: &String)
    ensures
        r == settings.btcd_password,
{
    &settings.btcd_password
}

/// The password the wallet's seed vault is opened with.
pub fn wallet_pw(settings: &Settings) -> (r: &String)
    ensures
        r == settings.wallet_pw,
{
    &settings.wallet_pw
}

/// The port the HTTP surface listens on.
pub fn port(settings: &Settings) -> (r: u16)
    ensures
        r == settings.port,
{
    settings.port
}

/// The address the event publisher binds.
pub fn publisher_bind_address(settings: &Settings) -> (r: &String)
    ensures
        r == settings.publisher_bind_address,
{
    &settings.publisher_bind_address
}

} // verus!
