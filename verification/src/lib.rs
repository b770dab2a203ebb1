//! A biological sequence with an extensible set of annotations, modelled as
//! a tree of immutable, content-addressed records.  Records convert to a
//! structured interchange value, the value is encoded canonically to bytes,
//! and the bytes are stored under a content identifier derived from them;
//! resolving walks the tree back from a root identifier, fetching and
//! decoding every linked child while keeping the original order.
pub mod value;
pub mod codec;
pub mod store;
pub mod record;
