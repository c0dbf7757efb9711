//! A manager of Vim plugins: parsing of VimFlavor manifests and the rules
//! that drive installing and updating the plugins they describe.

pub mod parse;
pub mod sync;
pub mod version;

pub use parse::Flavor;
pub use parse::ParseError;
pub use parse::Parser;
pub use parse::Token;
pub use sync::Action;
pub use sync::InstallError;
pub use sync::Mode;
pub use sync::Outcome;
pub use sync::complete;
pub use sync::dir_name;
pub use sync::is_invalid;
pub use sync::judge;
pub use sync::plan;
pub use version::FromStrError;
pub use version::Version;
