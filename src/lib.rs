use vstd::prelude::*;

pub mod key;
pub mod laws;
pub mod slots;
pub mod table;

pub use key::TableKey;
pub use slots::Entry;
pub use table::HashMap;

verus! {

} // verus!
