//! Canonical forms and symbolic derivatives for regular expressions over
//! single-character literals, concatenation, alternation and Kleene star.
//!
//! An expression is read by [`parser::Parser`], brought into star normal form
//! by [`ssnf::ssnf`], canonicalized by [`aci::simplify`] and differentiated by
//! [`derivative::take_derivative`]. Every function is specified against the
//! mathematical model in [`model`], and the passes are shown to do what they
//! are for:
//!
//! - star normal form leaves no star over a nullable body and keeps the
//!   language ([`ssnf::lemma_ssnf_star_normal`],
//!   [`ssnf_language::lemma_ssnf_accepts`]);
//! - canonicalization orders every alternation ([`ordered::lemma_canon_ordered`]),
//!   is idempotent ([`canonical::lemma_simplify_idempotent`]) and keeps the
//!   language ([`canon_language::lemma_simplify_accepts`]), so that trees
//!   with the same canonical text denote one language
//!   ([`canon_language::lemma_same_canonical_text`]);
//! - the derivative by a symbol accepts what is left of the words that start
//!   with the symbol ([`suffix::lemma_derive_accepts`]).

pub mod model;
pub mod order;
pub mod node;
pub mod text;
pub mod parser;
pub mod ssnf;
pub mod derivative;
pub mod aci;
pub mod unique;
pub mod tidy;
pub mod balance;
pub mod canonical;
pub mod ordered;
pub mod language;
pub mod suffix;
pub mod ssnf_language;
pub mod same_key;
pub mod canon_language;
