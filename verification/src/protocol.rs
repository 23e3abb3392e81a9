//! Protocol declarations: the two listener/dialer description types and
//! the closed sum of wire protocols the bridge dispatches on.

use vstd::prelude::*;

verus! {

/// An HTTP proxy endpoint declaration.
#[derive(Debug)]
pub struct Http {
    pub name: String,
    pub host: String,
    pub port: u16,
}

/// A SOCKS5 proxy endpoint declaration, with optional username/password
/// authentication.
#[derive(Debug)]
pub struct Socks5 {
    pub name: String,
    pub host: String,
    pub port: u16,
    pub auth_enable: bool,
    pub username: Option<String>,
    pub password: Option<String>,
}

/// The wire protocol spoken on one side of a bridged connection.
#[derive(Debug, Clone, Copy, PartialEq, Eq, Structural)]
pub enum ProtocolType {
    Http,
    Socks5,
}

/// A dial strategy: straight to the target, or through a proxy endpoint.
#[derive(Debug)]
pub enum Protocol {
    Direct,
    Http(Http),
    Socks5(Socks5),
}

pub fn clone_opt_string(o: &Option<String>) -> (r: Option<String>)
    ensures
        r == *o,
{
    match o {
        Option::None => Option::None,
        Option::Some(s) => Option::Some(s.clone()),
    }
}

impl Clone for Http {
    fn clone(&self) -> (r: Self)
        ensures
            r == *self,
    {
        Http { name: self.name.clone(), host: self.host.clone(), port: self.port }
    }
}

impl Clone for Socks5 {
    fn clone(&self) -> (r: Self)
        ensures
            r == *self,
    {
        Socks5 {
            name: self.name.clone(),
            host: self.host.clone(),
            port: self.port,
            auth_enable: self.auth_enable,
            username: clone_opt_string(&self.username),
            password: clone_opt_string(&self.password),
        }
    }
}

} // verus!
