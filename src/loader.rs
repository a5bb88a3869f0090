//! Turning a loaded document into records ready for embedding.
use crate::splitter::{default_separators, recursive_chunks, string_views, TextSplitter};
use vstd::prelude::*;

verus! {

/// One chunk of a named document, with the embedding text still to fill.
#[derive(Debug)]
pub struct ReadParam {
    pub name: String,
    pub content: String,
    pub embed: String,
}

/// The records of the document `name` with text `contents`: one per chunk of
/// the recursive split, in order, each with an empty embedding.
pub fn chunk_records(splitter: &TextSplitter, name: &str, contents: &str) -> (r: Vec<ReadParam>)
    requires
        splitter.wf(),
    ensures
        r@.len() == recursive_chunks(contents@, default_separators(), splitter.size(), splitter.overlap()).len(),
        forall|i: int|
            0 <= i < r@.len() ==> (#[trigger] r@[i]).name@ == name@ && r@[i].content@ == recursive_chunks(
                contents@,
                default_separators(),
                splitter.size(),
                splitter.overlap(),
            )[i] && r@[i].embed@ == Seq::<char>::empty(),
{
    let chunks = splitter.recursive_split(contents);
    let ghost cv = string_views(chunks@);
    let mut records: Vec<ReadParam> = Vec::new();
    let mut i: usize = 0;
    while i < chunks.len()
        invariant
            cv == string_views(chunks@),
            i <= chunks@.len(),
            records@.len() == i,
            forall|k: int|
                0 <= k < i ==> (#[trigger] records@[k]).name@ == name@ && records@[k].content@ == cv[k]
                    && records@[k].embed@ == Seq::<char>::empty(),
        decreases chunks@.len() - i,
    {
        let record = ReadParam {
            name: String::from_str(name),
            content: chunks[i].clone(),
            embed: String::new(),
        };
        records.push(record);
        i = i + 1;
    }
    records
}

} // verus!
