//! A retained-mode view reconciliation engine.
//!
//! A caller describes a fragment of an ordered scene tree as a value (a node
//! reference, an optional sub-view, a keyed list of sub-views, or a
//! discriminated union of sub-views).  The engine builds the corresponding
//! nodes, and on every later description it applies the minimal structural
//! edits (insertions, removals, reorderings, replacements) that bring the
//! live tree back in sync, without tearing down unaffected parts.

pub mod anchor;
pub mod ctx;
pub mod keyed;
pub mod leaf;
pub mod option_view;
pub mod scene;
pub mod seqtools;
pub mod union_view;
pub mod view;

pub use anchor::{Anchor, BeforeAnchor, ChildAnchor};
pub use ctx::AppCtx;
pub use keyed::VecViewState;
pub use leaf::{LeafView, LeafViewState};
pub use option_view::OptionViewState;
pub use scene::Scene;
pub use union_view::{UnionInner, UnionView, UnionViewState};
pub use view::{CustomView, ViewValue};
