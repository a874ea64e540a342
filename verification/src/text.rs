//! Messages that name tasks by their identifiers.
use vstd::prelude::*;
use vstd::string::*;
use crate::ids::{uuid_string, uuid_text};

verus! {

/// Identifiers in hyphenated form, separated by `", "`.
pub open spec fn join_ids(ids: Seq<u128>) -> Seq<char>
    decreases ids.len(),
{
    if ids.len() == 0 {
        Seq::empty()
    } else if ids.len() == 1 {
        uuid_text(ids[0])
    } else {
        join_ids(ids.drop_last()) + ", "@ + uuid_text(ids.last())
    }
}

/// Writes the identifiers of `ids` in hyphenated form, separated by `", "`.
pub fn ids_text(ids: &Vec<u128>) -> (s: String)
    ensures
        s@ == join_ids(ids@),
{
    let mut s = String::new();
    let mut i: usize = 0;
    while i < ids.len()
        invariant
            i <= ids.len(),
            s@ == join_ids(ids@.take(i as int)),
        decreases ids.len() - i,
    {
        let id_text = uuid_string(ids[i]);
        if i > 0 {
            s.append(", ");
        }
        s.append(id_text.as_str());
        proof {
            assert(ids@.take(i + 1).drop_last() == ids@.take(i as int));
            if i == 0 {
                assert(join_ids(ids@.take(1)) == uuid_text(ids@[0]));
                assert(s@ =~= uuid_text(ids@[0]));
            }
        }
        i = i + 1;
    }
    assert(ids@.take(ids.len() as int) == ids@);
    s
}

/// Concatenation of a literal, a text and a literal.
pub fn framed(before: &str, middle: &String, after: &str) -> (s: String)
    ensures
        s@ == before@ + middle@ + after@,
{
    let mut s = String::from_str(before);
    s.append(middle.as_str());
    s.append(after);
    s
}

} // verus!
