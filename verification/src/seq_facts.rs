use vstd::prelude::*;

verus! {

/// What a sequence with one more element contains.
pub proof fn lemma_push_contains<A>(s: Seq<A>, last: A, x: A)
    ensures
        s.push(last).contains(x) <==> s.contains(x) || x == last,
{
    let more = s.push(last);
    if s.contains(x) {
        let j = choose|j: int| 0 <= j < s.len() && s[j] == x;
        assert(more[j] == x);
    }
    if x == last {
        assert(more[s.len() as int] == x);
    }
}

} // verus!
