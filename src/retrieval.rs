//! The parts of similarity retrieval that need no arithmetic on the vectors:
//! the dimension rule, and the assembly of the context block that is handed
//! to a generation model.
use crate::splitter::string_views;
use vstd::prelude::*;

verus! {

/// Two vectors compared for similarity have different lengths.
#[derive(Debug, Clone, Copy, PartialEq, Eq)]
pub struct VectorLengthError;

impl VectorLengthError {
    /// What went wrong, in words.
    pub fn message(&self) -> (r: String)
        ensures
            r@ == "vectors must have the same length"@,
    {
        String::from_str("vectors must have the same length")
    }
}

/// Vectors can be compared only when their lengths agree.
pub fn check_same_length(a_len: usize, b_len: usize) -> (r: Result<(), VectorLengthError>)
    ensures
        r is Ok <==> a_len == b_len,
{
    if a_len != b_len {
        Err(VectorLengthError)
    } else {
        Ok(())
    }
}

/// The context block for `query` given the concatenated matched texts: a
/// context line when something matched, then the query line.
pub open spec fn context_block(matches: Seq<char>, query: Seq<char>) -> Seq<char> {
    let q = "user query: "@ + query + "\n"@;
    if matches.len() > 0 {
        "context: "@ + matches + "\n"@ + q
    } else {
        q
    }
}

/// The matched chunk texts, concatenated as they are, and the query, as one
/// block; with no match (or only empty ones) it is the query line alone.
pub fn assemble_context(matched: &Vec<String>, query: &str) -> (r: String)
    ensures
        r@ == context_block(string_views(matched@).flatten(), query@),
{
    let mut matches = String::new();
    let mut i: usize = 0;
    while i < matched.len()
        invariant
            i <= matched@.len(),
            matches@ == string_views(matched@).subrange(0, i as int).flatten(),
        decreases matched@.len() - i,
    {
        proof {
            let sv = string_views(matched@);
            assert(sv.subrange(0, i + 1) =~= sv.subrange(0, i as int).push(sv[i as int]));
            sv.subrange(0, i as int).lemma_flatten_push(sv[i as int]);
        }
        matches.append(matched[i].as_str());
        i = i + 1;
    }
    assert(string_views(matched@).subrange(0, i as int) =~= string_views(matched@));
    let mut out = String::new();
    if matches.as_str().unicode_len() > 0 {
        out.append("context: ");
        out.append(matches.as_str());
        out.append("\n");
    }
    out.append("user query: ");
    out.append(query);
    out.append("\n");
    assert(out@ =~= context_block(matches@, query@));
    out
}

/// The request text for the generation model: an instruction to answer in
/// Japanese, a line break, then the context block.
pub open spec fn answer_prompt_text(context: Seq<char>) -> Seq<char> {
    "日本語で、回答して欲しい。\n"@ + context
}

/// The request text for the generation model built on `context`.
pub fn answer_prompt(context: &str) -> (r: String)
    ensures
        r@ == answer_prompt_text(context@),
{
    let mut out = String::from_str("日本語で、回答して欲しい。\n");
    out.append(context);
    out
}

} // verus!
