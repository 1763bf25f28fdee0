//! Request-authentication core for a Shopify-style platform integration.
//!
//! The library validates shop identifiers against the platform's hostname
//! grammar, generates URL-safe nonces, builds OAuth authorization redirect
//! URIs, and verifies that inbound callback requests carry a genuine keyed
//! message-authentication code (HMAC-SHA-256) over the canonical form of
//! their query parameters.

pub mod auth;
pub mod mac;
pub mod shop_url;
pub mod signature;

use vstd::prelude::*;

verus! {

/// Immutable application credentials: the public API key and the shared
/// secret that keys every MAC this instance computes.
pub struct Credentials {
    pub api_key: String,
    pub secret: String,
}

/// Whether the requested authorization yields a session-scoped ("online") or
/// a long-lived ("offline") credential.
#[derive(Clone, Copy, PartialEq, Eq, Structural, Debug)]
pub enum AccessMode {
    Online,
    Offline,
}

/// The canonical token an access mode contributes to the authorization URI.
pub open spec fn mode_token(m: AccessMode) -> Seq<char> {
    match m {
        AccessMode::Online => "online"@,
        AccessMode::Offline => "offline"@,
    }
}

impl AccessMode {
    /// The canonical string token for this access mode.
    pub fn as_string(&self) -> (r: String)
        ensures
            r@ == mode_token(*self),
    {
        match self {
            AccessMode::Online => "online".to_owned(),
            AccessMode::Offline => "offline".to_owned(),
        }
    }
}

/// One application instance: its credentials, the permission scopes it will
/// request, and the access mode of the tokens it asks for.
pub struct ShopifyApp {
    pub credentials: Credentials,
    pub scopes: Vec<String>,
    pub access_mode: AccessMode,
}

impl ShopifyApp {
    /// Assembles an application instance from explicit configuration values.
    pub fn new(credentials: Credentials, scopes: Vec<String>, access_mode: AccessMode) -> (r:
        ShopifyApp)
        ensures
            r.credentials.api_key == credentials.api_key,
            r.credentials.secret == credentials.secret,
            r.scopes == scopes,
            r.access_mode == access_mode,
    {
        ShopifyApp { credentials, scopes, access_mode }
    }
}

} // verus!
