pub mod codec;
pub mod directive;
pub mod encoding;
pub mod headers;
pub mod query;
pub mod response;
pub mod rewrite;
pub mod server;
pub mod text;

pub use directive::{RevProxyRequest, UriWrapper};
pub use rewrite::{RegexWrapper, RewriteRules};
pub use server::{RevProxyServer, RevProxyServerError};
