use vstd::prelude::*;
use crate::lexer::Str;

verus! {

/// The mapping that an association list stands for. A later entry for a name
/// replaces an earlier one, as an insertion into a map would.
pub open spec fn pairs_view<T: View>(s: Seq<(Str, T)>) -> Map<Seq<char>, T::V>
    decreases s.len(),
{
    if s.len() == 0 {
        Map::<Seq<char>, T::V>::empty()
    } else {
        pairs_view(s.drop_last()).insert(s.last().0@, s.last().1@)
    }
}

/// The entry that a backwards scan finds first is the one the mapping holds.
pub proof fn lemma_pairs_view_found<T: View>(s: Seq<(Str, T)>, k: Seq<char>, j: int)
    requires
        0 <= j < s.len(),
        s[j].0@ == k,
        forall|m: int| j < m < s.len() ==> s[m].0@ != k,
    ensures
        pairs_view(s).contains_key(k),
        pairs_view(s)[k] == s[j].1@,
    decreases s.len(),
{
    if j < s.len() - 1 {
        assert(s.drop_last()[j] == s[j]);
        assert(forall|m: int| j < m < s.drop_last().len() ==> s.drop_last()[m] == s[m]);
        lemma_pairs_view_found(s.drop_last(), k, j);
    }
}

/// A name that no entry carries is not in the mapping.
pub proof fn lemma_pairs_view_absent<T: View>(s: Seq<(Str, T)>, k: Seq<char>)
    requires
        forall|m: int| 0 <= m < s.len() ==> s[m].0@ != k,
    ensures
        !pairs_view(s).contains_key(k),
    decreases s.len(),
{
    if s.len() > 0 {
        assert(forall|m: int| 0 <= m < s.drop_last().len() ==> s.drop_last()[m] == s[m]);
        lemma_pairs_view_absent(s.drop_last(), k);
    }
}

/// The mapping holds a name exactly where some entry carries it.
pub proof fn lemma_pairs_view_contains<T: View>(s: Seq<(Str, T)>, k: Seq<char>)
    ensures
        pairs_view(s).contains_key(k) <==> exists|m: int| 0 <= m < s.len() && s[m].0@ == k,
    decreases s.len(),
{
    if s.len() > 0 {
        lemma_pairs_view_contains(s.drop_last(), k);
        assert(forall|m: int| 0 <= m < s.len() - 1 ==> s.drop_last()[m] == s[m]);
        if pairs_view(s).contains_key(k) {
            if s.last().0@ != k {
                let m = choose|m: int| 0 <= m < s.drop_last().len() && s.drop_last()[m].0@ == k;
                assert(s[m].0@ == k);
            } else {
                assert(s[s.len() - 1].0@ == k);
            }
        }
        if exists|m: int| 0 <= m < s.len() && s[m].0@ == k {
            let m = choose|m: int| 0 <= m < s.len() && s[m].0@ == k;
            if m < s.len() - 1 {
                assert(s.drop_last()[m].0@ == k);
            }
        }
    }
}

/// Appending an entry inserts its binding into the mapping.
pub proof fn lemma_pairs_view_push<T: View>(s: Seq<(Str, T)>, name: Str, v: T)
    ensures
        pairs_view(s.push((name, v))) == pairs_view(s).insert(name@, v@),
{
    assert(s.push((name, v)).drop_last() =~= s);
    assert(s.push((name, v)).last() == (name, v));
}

} // verus!
