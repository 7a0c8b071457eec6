//! What a run is started with: the subnet to scan, and whether cycles repeat.

use crate::address::{parse_address, parsed_address};
use crate::text::texts_of;
use vstd::prelude::*;
use vstd::string::StringExecFns;

verus! {

/// The address that is taken where the command line is set aside: 192.168.100.1.
pub const DEFAULT_STARTING_IP: u32 = 0xc0a8_6401;

/// The subnet mask that is taken where the command line is set aside: 255.255.255.0.
pub const DEFAULT_SUBNET_MASK: u32 = 0xffff_ff00;

/// The number of arguments of a complete command line: the program's name,
/// the address, the mask and the repeat flag.
pub const ARGUMENT_COUNT: usize = 4;

/// The settings of one run.
#[derive(Clone, Copy, Debug, PartialEq, Eq, Structural)]
pub struct Settings {
    /// An address of the subnet to scan.
    pub starting_ip: u32,
    /// The mask of the subnet to scan.
    pub subnet_mask: u32,
    /// Whether cycle follows cycle without end, or one cycle is all.
    pub repeat: bool,
    /// Whether the command line was set aside and the defaults were taken.
    pub defaulted: bool,
}

/// Why a complete command line gives no settings.
#[derive(Clone, Copy, Debug, PartialEq, Eq, Structural)]
pub enum ConfigError {
    /// The address is no dotted-quad text.
    UnparseableAddress,
    /// The subnet mask is no dotted-quad text.
    UnparseableMask,
}

/// The settings that are taken where the command line is set aside.
pub open spec fn default_settings() -> Settings {
    Settings {
        starting_ip: DEFAULT_STARTING_IP,
        subnet_mask: DEFAULT_SUBNET_MASK,
        repeat: true,
        defaulted: true,
    }
}

/// The settings that the command line `arguments` asks for, of which the
/// first argument is the program's name. A command line of exactly four
/// arguments gives the address, the mask and the repeat flag, and the flag
/// `0` alone asks for a single cycle; it is in error where the address, or
/// else the mask, cannot be read. Any other command line is set aside as a
/// whole: the defaults are taken, and cycles repeat.
pub open spec fn settings_for(arguments: Seq<Seq<char>>) -> Result<Settings, ConfigError> {
    if arguments.len() != ARGUMENT_COUNT {
        Ok(default_settings())
    } else {
        match parsed_address(arguments[1]) {
            None => Err(ConfigError::UnparseableAddress),
            Some(starting_ip) => match parsed_address(arguments[2]) {
                None => Err(ConfigError::UnparseableMask),
                Some(subnet_mask) => Ok(
                    Settings {
                        starting_ip,
                        subnet_mask,
                        repeat: arguments[3] != "0"@,
                        defaulted: false,
                    },
                ),
            },
        }
    }
}

/// Chooses the settings of a run from its command line.
pub fn settings_from_arguments(arguments: &Vec<String>) -> (chosen: Result<Settings, ConfigError>)
    ensures
        chosen == settings_for(texts_of(arguments@)),
{
    if arguments.len() != ARGUMENT_COUNT {
        return Ok(
            Settings {
                starting_ip: DEFAULT_STARTING_IP,
                subnet_mask: DEFAULT_SUBNET_MASK,
                repeat: true,
                defaulted: true,
            },
        );
    }
    let starting_ip: u32 = match parse_address(arguments[1].as_str()) {
        Some(address) => address,
        None => {
            return Err(ConfigError::UnparseableAddress);
        },
    };
    let subnet_mask: u32 = match parse_address(arguments[2].as_str()) {
        Some(address) => address,
        None => {
            return Err(ConfigError::UnparseableMask);
        },
    };
    let single: bool = arguments[3] == String::from_str("0");
    Ok(Settings { starting_ip, subnet_mask, repeat: !single, defaulted: false })
}

} // verus!
