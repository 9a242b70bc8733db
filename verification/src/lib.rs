//! A per-request cookie and session layer: parsing of `Cookie` headers,
//! a tamper-evident signed session stored in a single cookie, and
//! dirty-tracking so an unmodified session never re-emits a `Set-Cookie`
//! header.
pub mod codec;
pub mod jar;
pub mod middleware;
pub mod parse;
pub mod session;
pub mod session_map;

pub use middleware::{Middleware, RequestContext, RequestCookies};
pub use parse::parse_pair;
pub use session::{RequestSession, Session, SessionMiddleware};
pub use session_map::SessionMap;
