//! The kinds of files a configuration links to.

use vstd::prelude::*;
use crate::strings::copy_str;

verus! {

/// What a linked file holds.
#[derive(Clone, Copy, Debug, PartialEq, Eq)]
pub enum LinkType {
    Config,
    Protobuf,
    Script,
    Cert,
    Key,
    Operation,
    Htpasswd,
    Jwks,
    Grpc,
}

impl Default for LinkType {
    fn default() -> (r: LinkType)
        ensures
            r == LinkType::Config,
    {
        LinkType::Config
    }
}

impl LinkType {
    /// The name of the kind, as it is displayed.
    pub fn name(&self) -> (r: String)
        ensures
            r@ == (match self {
                LinkType::Config => "Config"@,
                LinkType::Protobuf => "Protobuf"@,
                LinkType::Script => "Script"@,
                LinkType::Cert => "Cert"@,
                LinkType::Key => "Key"@,
                LinkType::Operation => "Operation"@,
                LinkType::Htpasswd => "Htpasswd"@,
                LinkType::Jwks => "Jwks"@,
                LinkType::Grpc => "Grpc"@,
            }),
    {
        match self {
            LinkType::Config => copy_str("Config"),
            LinkType::Protobuf => copy_str("Protobuf"),
            LinkType::Script => copy_str("Script"),
            LinkType::Cert => copy_str("Cert"),
            LinkType::Key => copy_str("Key"),
            LinkType::Operation => copy_str("Operation"),
            LinkType::Htpasswd => copy_str("Htpasswd"),
            LinkType::Jwks => copy_str("Jwks"),
            LinkType::Grpc => copy_str("Grpc"),
        }
    }
}

} // verus!
