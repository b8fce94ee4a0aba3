//! Amendment instructions of Japanese statutes and ordinances: numerals, article
//! numbering, the vocabulary of instructions, the identity algebra of paragraph revisions,
//! and the e-Gov form of ordinances.

pub mod article_num;
pub mod body;
pub mod body_refs;
pub mod body_laws;
pub mod compare;
pub mod containers;
pub mod content_lines;
pub mod derive;
pub mod derive_laws;
pub mod hane;
pub mod hane_cands;
pub mod labels;
pub mod ident;
pub mod ident_laws;
pub mod lines;
pub mod list_forms;
pub mod locs;
pub mod normalize;
pub mod numeral;
pub mod op;
pub mod parse;
pub mod phrase;
pub mod phrase_forms;
pub mod phrase_op;
pub mod quotes;
pub mod place;
pub mod reiki;
pub mod reiki_doc;
pub mod reiki_style;
pub mod reiki_xml;
pub mod rewrite;
pub mod scenario;
pub mod table;
pub mod segments;
pub mod segment_laws;
pub mod text;
