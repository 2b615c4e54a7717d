//! The set of domains to classify: the names as they were read, brought
//! to their normal form, without repetition.

use crate::rank::{distinct_indices, lemma_sorted_set_of, picks, sorted_set_of};
use crate::text::{char_views, chars_of, is_trimmed, normal_form, normalize, string_views};
use vstd::prelude::*;

verus! {

/// The normal forms of `raw`, in order, without those that are empty.
pub open spec fn cleaned(raw: Seq<Seq<char>>) -> Seq<Seq<char>>
    decreases raw.len(),
{
    if raw.len() == 0 {
        Seq::empty()
    } else if normal_form(raw.last()).len() == 0 {
        cleaned(raw.drop_last())
    } else {
        cleaned(raw.drop_last()).push(normal_form(raw.last()))
    }
}

/// The set of the domains named in `raw`: the normal forms that are not
/// empty, each once, in alphabetical order.
pub open spec fn domain_set(raw: Seq<Seq<char>>) -> Seq<Seq<char>> {
    sorted_set_of(cleaned(raw))
}

/// The domains named in `raw`: each name in lowercase and trimmed, the
/// empty ones left out, each domain once, in alphabetical order.
pub fn normalize_domains(raw: &Vec<String>) -> (domains: Vec<String>)
    ensures
        string_views(domains@) == domain_set(string_views(raw@)),
        forall|k: int|
            0 <= k < domains.len() ==> (#[trigger] domains@[k])@.len() > 0 && is_trimmed(
                domains@[k]@,
            ),
{
    let ghost all = string_views(raw@);
    let mut names: Vec<String> = Vec::new();
    let mut keys: Vec<Vec<char>> = Vec::new();
    let mut i: usize = 0;
    while i < raw.len()
        invariant
            all == string_views(raw@),
            i <= raw.len(),
            names.len() == keys.len(),
            string_views(names@) == cleaned(all.take(i as int)),
            char_views(keys@) == string_views(names@),
            forall|k: int|
                0 <= k < names.len() ==> (#[trigger] names@[k])@.len() > 0 && is_trimmed(
                    names@[k]@,
                ),
        decreases raw.len() - i,
    {
        proof {
            assert(all.take(i + 1).drop_last() == all.take(i as int));
        }
        let name = normalize(raw[i].as_str());
        let key = chars_of(name.as_str());
        if key.len() > 0 {
            proof {
                assert(string_views(names@.push(name)) == string_views(names@).push(name@));
                assert(char_views(keys@.push(key)) == char_views(keys@).push(key@));
            }
            names.push(name);
            keys.push(key);
        }
        i = i + 1;
    }
    proof {
        assert(all.take(raw.len() as int) == all);
    }
    let order = distinct_indices(&keys);
    let ghost list = picks(char_views(keys@), order@);
    let mut domains: Vec<String> = Vec::new();
    let mut k: usize = 0;
    while k < order.len()
        invariant
            k <= order.len(),
            names.len() == keys.len(),
            domains.len() == k,
            forall|m: int| 0 <= m < order.len() ==> #[trigger] order@[m] < keys.len(),
            forall|m: int| 0 <= m < k ==> (#[trigger] domains@[m])@ == names@[order@[m] as int]@,
        decreases order.len() - k,
    {
        domains.push(names[order[k]].clone());
        k = k + 1;
    }
    proof {
        assert(string_views(domains@) == list);
        lemma_sorted_set_of(cleaned(all), list);
        assert forall|m: int| 0 <= m < domains.len() implies (#[trigger] domains@[m])@.len() > 0
            && is_trimmed(domains@[m]@) by {
            assert(domains@[m]@ == names@[order@[m] as int]@);
        }
    }
    domains
}

} // verus!
