use vstd::prelude::*;

pub mod registry;
pub mod text;
pub mod ini;
pub mod section;
pub mod controller;
pub mod json;

pub use ini::AwsManager;
pub use registry::{KeeConfig, ProfileInfo};
pub use section::parse_aws_config_section;

verus! {

/// The banner shown by the command-line help: the tool's name in block
/// letters and what it is.
pub const KEE_ART: &'static str = "\n\n |  /  ####  ####\n | /   #     #\n |<    ###   ###\n | \\   #     #\n |  \\  ####  ####\n\n AWS CLI profile manager";

/// Prefixes a nickname with `kee-` to form the AWS profile name the tool owns.
pub fn format_profile_name(profile_name: &str) -> (r: String)
    ensures
        r@ == "kee-"@ + profile_name@,
{
    let mut s = String::from_str("kee-");
    s.append(profile_name);
    s
}

} // verus!
