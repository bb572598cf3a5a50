pub mod extract;
pub mod parse;
pub mod refs;
pub mod repo;
pub mod strutil;

pub use extract::entry_destination;
pub use parse::parse;
pub use parse::validate_src;
pub use parse::ParseError;
pub use refs::get_hash;
pub use refs::parse_ref_line;
pub use refs::parse_ref_listing;
pub use refs::GitRef;
pub use refs::RefError;
pub use refs::RefType;
pub use repo::Host;
pub use repo::Repo;
