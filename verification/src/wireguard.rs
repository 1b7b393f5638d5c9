//! A WireGuard configuration filled into a fixed template.
use vstd::prelude::*;

use crate::text::push_str;
use crate::util::{pair_views, replace_all, replaced_all};

verus! {

/// The placeholders of the template.
pub const TEMPLATE_CLIENT_PRIVATE_KEY: &'static str = "{{ PRIVATE_KEY }}";
pub const TEMPLATE_CLIENT_ADDRESS: &'static str = "{{ ADDRESS }}";
pub const TEMPLATE_CLIENT_DNS: &'static str = "{{ DNS }}";
pub const TEMPLATE_SERVER_PRESHARED_KEY: &'static str = "{{ PRESHARED_KEY }}";
pub const TEMPLATE_SERVER_PUBLIC_KEY: &'static str = "{{ PUBLIC_KEY }}";
pub const TEMPLATE_SERVER_ENDPOINT: &'static str = "{{ ENDPOINT }}";

/// The configuration file that the values are filled into.
pub const TEMPLATE: &'static str = "[Interface]\nPrivateKey = {{ PRIVATE_KEY }}\nAddress = {{ ADDRESS }}\nDNS = {{ DNS }}\n\n[Peer]\nPresharedkey = {{ PRESHARED_KEY }}\nPublicKey = {{ PUBLIC_KEY }}\nEndpoint = {{ ENDPOINT }}\nAllowedIPs = 0.0.0.0/0\nPersistentKeepalive = 25\n";

/// The values of a WireGuard configuration for one server.
pub struct Config {
    client_private_key: String,
    client_address: String,
    client_dns: String,
    server_preshared_key: String,
    server_public_key: String,
    server_endpoint: String,
}

/// The values of a configuration, as the contracts see them.
pub struct ConfigView {
    pub client_private_key: Seq<char>,
    pub client_address: Seq<char>,
    pub client_dns: Seq<char>,
    pub server_preshared_key: Seq<char>,
    pub server_public_key: Seq<char>,
    pub server_endpoint: Seq<char>,
}

impl View for Config {
    type V = ConfigView;

    closed spec fn view(&self) -> ConfigView {
        ConfigView {
            client_private_key: self.client_private_key@,
            client_address: self.client_address@,
            client_dns: self.client_dns@,
            server_preshared_key: self.server_preshared_key@,
            server_public_key: self.server_public_key@,
            server_endpoint: self.server_endpoint@,
        }
    }
}

/// The environment variable that a configuration needed and that was not set.
#[derive(Debug, Clone, Copy, PartialEq, Eq)]
pub enum MissingVar {
    ClientPrivateKey,
    ClientAddress,
    ClientDns,
    ServerPresharedKey,
}

impl MissingVar {
    /// The name of the environment variable.
    pub fn var_name(&self) -> (r: &'static str)
        ensures
            r@ == match *self {
                MissingVar::ClientPrivateKey => "CONFIG_CLIENT_PRIVATE_KEY"@,
                MissingVar::ClientAddress => "CONFIG_CLIENT_ADDRESS"@,
                MissingVar::ClientDns => "CONFIG_CLIENT_DNS"@,
                MissingVar::ServerPresharedKey => "CONFIG_SERVER_PRESHARED_KEY"@,
            },
    {
        match self {
            MissingVar::ClientPrivateKey => "CONFIG_CLIENT_PRIVATE_KEY",
            MissingVar::ClientAddress => "CONFIG_CLIENT_ADDRESS",
            MissingVar::ClientDns => "CONFIG_CLIENT_DNS",
            MissingVar::ServerPresharedKey => "CONFIG_SERVER_PRESHARED_KEY",
        }
    }
}

/// The placeholders of the template and what replaces them, in the order they are replaced.
pub open spec fn template_pairs(c: ConfigView) -> Seq<(Seq<char>, Seq<char>)> {
    seq![
        (TEMPLATE_CLIENT_PRIVATE_KEY@, c.client_private_key),
        (TEMPLATE_CLIENT_ADDRESS@, c.client_address),
        (TEMPLATE_CLIENT_DNS@, c.client_dns),
        (TEMPLATE_SERVER_PRESHARED_KEY@, c.server_preshared_key),
        (TEMPLATE_SERVER_PUBLIC_KEY@, c.server_public_key),
        (TEMPLATE_SERVER_ENDPOINT@, c.server_endpoint),
    ]
}

/// The template with the placeholders replaced by the values of `c`.
pub open spec fn filled_template(c: ConfigView) -> Seq<char> {
    replaced_all(TEMPLATE@, template_pairs(c))
}

impl Config {
    /// The configuration for the server `hostname` with key `public_key`, from the values of
    /// the environment variables `CONFIG_CLIENT_PRIVATE_KEY`, `CONFIG_CLIENT_ADDRESS`,
    /// `CONFIG_CLIENT_DNS` and `CONFIG_SERVER_PRESHARED_KEY`, `None` where one is not set.
    /// The first variable that is not set, in that order, is the error.
    pub fn from_env(
        client_private_key: Option<String>,
        client_address: Option<String>,
        client_dns: Option<String>,
        server_preshared_key: Option<String>,
        hostname: &str,
        public_key: &str,
    ) -> (r: Result<Config, MissingVar>)
        ensures
            client_private_key is None ==> r == Err::<Config, MissingVar>(MissingVar::ClientPrivateKey),
            client_private_key is Some && client_address is None ==> r == Err::<Config, MissingVar>(MissingVar::ClientAddress),
            client_private_key is Some && client_address is Some && client_dns is None
                ==> r == Err::<Config, MissingVar>(MissingVar::ClientDns),
            client_private_key is Some && client_address is Some && client_dns is Some && server_preshared_key is None
                ==> r == Err::<Config, MissingVar>(MissingVar::ServerPresharedKey),
            r is Ok <==> (client_private_key is Some && client_address is Some && client_dns is Some
                && server_preshared_key is Some),
            r is Ok ==> r->Ok_0@ == (ConfigView {
                client_private_key: client_private_key->0@,
                client_address: client_address->0@,
                client_dns: client_dns->0@,
                server_preshared_key: server_preshared_key->0@,
                server_public_key: public_key@,
                server_endpoint: hostname@ + ":443"@,
            }),
    {
        let client_private_key = match client_private_key {
            Some(v) => v,
            None => return Err(MissingVar::ClientPrivateKey),
        };
        let client_address = match client_address {
            Some(v) => v,
            None => return Err(MissingVar::ClientAddress),
        };
        let client_dns = match client_dns {
            Some(v) => v,
            None => return Err(MissingVar::ClientDns),
        };
        let server_preshared_key = match server_preshared_key {
            Some(v) => v,
            None => return Err(MissingVar::ServerPresharedKey),
        };
        let mut server_endpoint = hostname.to_owned();
        push_str(&mut server_endpoint, ":443");
        Ok(Config {
            client_private_key,
            client_address,
            client_dns,
            server_preshared_key,
            server_public_key: public_key.to_owned(),
            server_endpoint,
        })
    }

    /// The template with its placeholders replaced by the values of this configuration.
    pub fn to_string(&self) -> (r: String)
        ensures
            r@ == filled_template(self@),
    {
        let pairs = vec![
            (TEMPLATE_CLIENT_PRIVATE_KEY, self.client_private_key.as_str()),
            (TEMPLATE_CLIENT_ADDRESS, self.client_address.as_str()),
            (TEMPLATE_CLIENT_DNS, self.client_dns.as_str()),
            (TEMPLATE_SERVER_PRESHARED_KEY, self.server_preshared_key.as_str()),
            (TEMPLATE_SERVER_PUBLIC_KEY, self.server_public_key.as_str()),
            (TEMPLATE_SERVER_ENDPOINT, self.server_endpoint.as_str()),
        ];
        let r = replace_all(TEMPLATE.to_owned(), pairs.as_slice());
        assert(pair_views(pairs@) =~= template_pairs(self@));
        r
    }
}

} // verus!
