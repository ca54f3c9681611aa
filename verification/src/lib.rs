pub mod branches;
pub mod fragment_laws;
pub mod green;
pub mod guard_laws;
pub mod html_duplicate_id;
pub mod html_fragments;
pub mod id_laws;
pub mod ignore;
pub mod kind;
pub mod matching_laws;
pub mod navigation;
pub mod nesting;
pub mod nodes;
pub mod rule;
pub mod text;
pub mod text_laws;
pub mod tree;
pub mod twig_deprecated_feature_guard;
pub mod view_laws;
pub mod walks;
