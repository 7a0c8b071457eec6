use subnet_monitor::address::from_octets;
use subnet_monitor::settings::{
    settings_from_arguments, ConfigError, Settings, ARGUMENT_COUNT, DEFAULT_STARTING_IP,
    DEFAULT_SUBNET_MASK,
};

fn arguments(texts: &[&str]) -> Vec<String> {
    texts.iter().map(|text| text.to_string()).collect()
}

#[test]
fn defaults_are_the_class_c_subnet_of_192_168_100_1() {
    assert_eq!(DEFAULT_STARTING_IP, from_octets(192, 168, 100, 1));
    assert_eq!(DEFAULT_SUBNET_MASK, from_octets(255, 255, 255, 0));
    assert_eq!(ARGUMENT_COUNT, 4);
}

#[test]
fn missing_arguments_give_the_defaults() {
    assert_eq!(
        settings_from_arguments(&arguments(&["monitor"])),
        Ok(Settings {
            starting_ip: from_octets(192, 168, 100, 1),
            subnet_mask: from_octets(255, 255, 255, 0),
            repeat: true,
            defaulted: true,
        })
    );
}

#[test]
fn wrong_number_of_arguments_gives_the_defaults() {
    let defaults = Settings {
        starting_ip: DEFAULT_STARTING_IP,
        subnet_mask: DEFAULT_SUBNET_MASK,
        repeat: true,
        defaulted: true,
    };
    for given in [
        arguments(&[]),
        arguments(&["monitor", "10.0.0.1"]),
        arguments(&["monitor", "10.0.0.1", "255.0.0.0"]),
        arguments(&["monitor", "10.0.0.1", "255.0.0.0", "0", "extra"]),
        arguments(&["monitor", "not an address", "0"]),
    ] {
        assert_eq!(settings_from_arguments(&given), Ok(defaults));
    }
}

#[test]
fn flag_zero_asks_for_a_single_cycle() {
    assert_eq!(
        settings_from_arguments(&arguments(&["monitor", "10.0.0.1", "255.0.0.0", "0"])),
        Ok(Settings {
            starting_ip: from_octets(10, 0, 0, 1),
            subnet_mask: from_octets(255, 0, 0, 0),
            repeat: false,
            defaulted: false,
        })
    );
}

#[test]
fn any_other_flag_repeats() {
    for flag in ["1", "", "00", "no", "false", " 0", "0 "] {
        assert_eq!(
            settings_from_arguments(&arguments(&["monitor", "10.0.0.1", "255.0.0.0", flag])),
            Ok(Settings {
                starting_ip: from_octets(10, 0, 0, 1),
                subnet_mask: from_octets(255, 0, 0, 0),
                repeat: true,
                defaulted: false,
            })
        );
    }
}

#[test]
fn unreadable_address_is_an_error() {
    assert_eq!(
        settings_from_arguments(&arguments(&["monitor", "10.0.0", "255.0.0.0", "0"])),
        Err(ConfigError::UnparseableAddress)
    );
}

#[test]
fn unreadable_mask_is_an_error() {
    assert_eq!(
        settings_from_arguments(&arguments(&["monitor", "10.0.0.1", "255.0.0.256", "1"])),
        Err(ConfigError::UnparseableMask)
    );
}

#[test]
fn the_address_is_read_before_the_mask() {
    assert_eq!(
        settings_from_arguments(&arguments(&["monitor", "", "", "1"])),
        Err(ConfigError::UnparseableAddress)
    );
}
