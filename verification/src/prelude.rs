//! The names that most users of the library need.

pub use crate::error::AuthorizedError;
pub use crate::result::{AuthorizationStatus, AuthorizedResult};
pub use crate::scope::Scope;
pub use crate::UnAuthorizedFields;
pub use crate::{Authorizable, Authorized, Authorizor};
