pub mod errors;
pub mod field;
pub mod fri;
pub mod merkle_tree;
pub mod polynomial;
pub mod proof_stream;

pub use errors::DeserializationError;
pub use errors::FieldError;
pub use errors::StreamError;
pub use field::Field;
pub use field::FieldElement;
pub use fri::Fri;
pub use merkle_tree::Merkle;
pub use polynomial::Polynomial;
pub use proof_stream::Challenge;
pub use proof_stream::ProofStream;
