//! Where a corpus is stored.

use vstd::prelude::*;
use vstd::string::StringExecFns;

verus! {

/// The file that holds the corpus `corpus_id` in the directory `corpus_dir`:
/// `<corpus_dir>/<corpus_id>.txt`.
pub fn fname_from_id(corpus_dir: &str, corpus_id: &str) -> (r: String)
    ensures
        r@ == corpus_dir@ + "/"@ + corpus_id@ + ".txt"@,
{
    let mut r = corpus_dir.to_owned();
    r.append("/");
    r.append(corpus_id);
    r.append(".txt");
    r
}

} // verus!
