//! Symbol embeddings: the model they are made with, and the text under
//! which a symbol is embedded.

use vstd::prelude::*;
use crate::text::{concat, owned};

verus! {

/// Identifier of the sentence-embedding model.
pub const MODEL_ID: &'static str = "all-MiniLM-L6-v2";

/// Dimensions of an embedding vector.
pub const DIMS: usize = 384;

/// Embeddings of symbols.
pub struct Embedder {}

/// `kind parent.name in file`, or `kind name in file` without a parent.
pub open spec fn embedding_text(name: Seq<char>, kind: Seq<char>, file_path: Seq<char>, parent: Option<Seq<char>>) -> Seq<
    char,
> {
    match parent {
        Some(p) => kind + " "@ + p + "."@ + name + " in "@ + file_path,
        None => kind + " "@ + name + " in "@ + file_path,
    }
}

impl Embedder {
    /// Build text representation for a symbol.
    pub fn make_text(name: &str, kind: &str, file_path: &str, parent_name: Option<&str>) -> (r: String)
        ensures
            r@ == embedding_text(name@, kind@, file_path@, match parent_name {
                Some(p) => Some(p@),
                None => None,
            }),
    {
        let mut s = concat(kind, " ");
        match parent_name {
            Some(p) => {
                s.append(p);
                s.append(".");
            },
            None => {},
        }
        s.append(name);
        s.append(" in ");
        s.append(file_path);
        proof {
            reveal_strlit(" ");
            reveal_strlit(".");
            reveal_strlit(" in ");
        }
        s
    }
}

} // verus!
