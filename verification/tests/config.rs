use bitserv::Environment;
use bitserv::Settings;
use bitserv::btcd_password;
use bitserv::btcd_url;
use bitserv::btcd_username;
use bitserv::environment;
use bitserv::port;
use bitserv::publisher_bind_address;
use bitserv::wallet_pw;

fn settings(env: &str) -> Settings {
    Settings {
        environment: env.to_string(),
        port: 3000,
        publisher_bind_address: "tcp://*:5556".to_string(),
        btcd_url: "http://127.0.0.1:18443".to_string(),
        btcd_username: "myusername".to_string(),
        btcd_password: "mypassword".to_string(),
        wallet_pw: "your-secure-password".to_string(),
    }
}

#[test]
fn environment_names() {
    assert_eq!(Environment::Test.as_str(), "test");
    assert_eq!(Environment::Production.as_str(), "prod");
}

#[test]
fn environment_selection_from_value() {
    assert_eq!(Environment::from_name("prod"), Environment::Production);
    assert_eq!(Environment::from_name("test"), Environment::Test);
    assert_eq!(Environment::from_name("anything-else"), Environment::Test);
    assert_eq!(Environment::from_name(""), Environment::Test);
}

#[test]
fn settings_expose_their_environment() {
    assert_eq!(settings("prod").environment(), Environment::Production);
    assert_eq!(settings("test").environment(), Environment::Test);
    assert_eq!(environment(&settings("prod")), Environment::Production);
}

#[test]
fn accessors_return_the_fields() {
    let s = settings("test");
    assert_eq!(btcd_url(&s), "http://127.0.0.1:18443");
    assert_eq!(btcd_username(&s), "myusername");
    assert_eq!(btcd_password(&s), "mypassword");
    assert_eq!(wallet_pw(&s), "your-secure-password");
    assert_eq!(port(&s), 3000);
    assert_eq!(publisher_bind_address(&s), "tcp://*:5556");
}
