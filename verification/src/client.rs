//! What is kept of a host's answer: the names of its projects by URL.
use vstd::prelude::*;

verus! {

/// The pairs of `s` as a map; a later pair replaces an earlier one of the same key.
pub open spec fn pairs_map(s: Seq<(Seq<char>, Seq<char>)>) -> Map<Seq<char>, Seq<char>>
    decreases s.len(),
{
    if s.len() == 0 {
        Map::empty()
    } else {
        pairs_map(s.drop_last()).insert(s.last().0, s.last().1)
    }
}

/// No two pairs of `s` share a key.
pub open spec fn keys_distinct(s: Seq<(Seq<char>, Seq<char>)>) -> bool {
    forall|i: int, j: int| 0 <= i < s.len() && 0 <= j < s.len() && i != j ==> s[i].0 != s[j].0
}

/// Every project reports both its URL and its name.
pub open spec fn projects_complete(projects: Seq<(Option<Seq<char>>, Option<Seq<char>>)>) -> bool {
    forall|i: int| 0 <= i < projects.len() ==> (#[trigger] projects[i]).0 is Some && projects[i].1 is Some
}

/// The project names by URL; a later project replaces an earlier one of the same URL.
pub open spec fn project_names_spec(projects: Seq<(Option<Seq<char>>, Option<Seq<char>>)>) -> Map<
    Seq<char>,
    Seq<char>,
>
    decreases projects.len(),
{
    if projects.len() == 0 {
        Map::empty()
    } else {
        project_names_spec(projects.drop_last()).insert(
            projects.last().0->0,
            projects.last().1->0,
        )
    }
}

pub proof fn lemma_pairs_map_update(s: Seq<(Seq<char>, Seq<char>)>, i: int, p: (Seq<char>, Seq<char>))
    requires
        keys_distinct(s),
        0 <= i < s.len(),
        s[i].0 == p.0,
    ensures
        pairs_map(s.update(i, p)) == pairs_map(s).insert(p.0, p.1),
        keys_distinct(s.update(i, p)),
    decreases s.len(),
{
    let u = s.update(i, p);
    if i == s.len() - 1 {
        assert(u.drop_last() =~= s.drop_last());
        assert(pairs_map(u) =~= pairs_map(s).insert(p.0, p.1));
    } else {
        assert(u.drop_last() =~= s.drop_last().update(i, p));
        lemma_pairs_map_update(s.drop_last(), i, p);
        assert(s.last().0 != p.0);
        assert(pairs_map(u) =~= pairs_map(s).insert(p.0, p.1));
    }
}

/// Puts `(key, value)` in `pairs`: in place of the pair of the same key, if there
/// is one, else at the end.
fn upsert_pair(pairs: &mut Vec<(String, String)>, key: String, value: String)
    requires
        keys_distinct(old(pairs).deep_view()),
    ensures
        keys_distinct(final(pairs).deep_view()),
        pairs_map(final(pairs).deep_view()) == pairs_map(old(pairs).deep_view()).insert(
            key@,
            value@,
        ),
{
    let ghost s = old(pairs).deep_view();
    let mut i: usize = 0;
    while i < pairs.len()
        invariant
            pairs@ == old(pairs)@,
            s == old(pairs).deep_view(),
            keys_distinct(s),
            0 <= i <= pairs.len(),
            forall|j: int| 0 <= j < i ==> s[j].0 != key@,
        decreases pairs.len() - i,
    {
        if pairs[i].0 == key {
            let ghost p = (key@, value@);
            assert(s[i as int].0 == key@);
            pairs[i] = (key, value);
            proof {
                lemma_pairs_map_update(s, i as int, p);
                assert(pairs.deep_view() =~= s.update(i as int, p));
            }
            return;
        }
        i = i + 1;
    }
    let ghost p = (key@, value@);
    pairs.push((key, value));
    proof {
        let t = pairs.deep_view();
        assert(t =~= s.push(p));
        assert(t.drop_last() =~= s);
    }
}

/// The names of a host's projects by URL, from its `(url, name)` list.
pub fn project_names(projects: &Vec<(Option<String>, Option<String>)>) -> (r: Vec<(String, String)>)
    requires
        projects_complete(projects.deep_view()),
    ensures
        keys_distinct(r.deep_view()),
        pairs_map(r.deep_view()) == project_names_spec(projects.deep_view()),
{
    let ghost dv = projects.deep_view();
    let mut names: Vec<(String, String)> = Vec::new();
    proof {
        assert(names.deep_view() =~= Seq::<(Seq<char>, Seq<char>)>::empty());
        assert(dv.take(0) =~= Seq::<(Option<Seq<char>>, Option<Seq<char>>)>::empty());
    }
    let mut i: usize = 0;
    while i < projects.len()
        invariant
            dv == projects.deep_view(),
            projects_complete(dv),
            0 <= i <= projects.len(),
            keys_distinct(names.deep_view()),
            pairs_map(names.deep_view()) == project_names_spec(dv.take(i as int)),
        decreases projects.len() - i,
    {
        assert(dv[i as int] == projects[i as int].deep_view());
        assert(projects_complete(dv) ==> dv[i as int].0 is Some);
        let url = match &projects[i].0 {
            Some(url) => url.clone(),
            None => String::new(),
        };
        let name = match &projects[i].1 {
            Some(name) => name.clone(),
            None => String::new(),
        };
        upsert_pair(&mut names, url, name);
        assert(dv.take(i + 1).drop_last() =~= dv.take(i as int));
        assert(dv.take(i + 1).last() == dv[i as int]);
        i = i + 1;
    }
    assert(dv.take(i as int) =~= dv);
    names
}

} // verus!

verus! {

/// The map holds a name for each reported URL and for nothing else; where projects
/// share a URL, the last of them gives the name.
pub proof fn lemma_project_names_last_wins(
    projects: Seq<(Option<Seq<char>>, Option<Seq<char>>)>,
    i: int,
)
    requires
        projects_complete(projects),
        0 <= i < projects.len(),
        forall|j: int| i < j < projects.len() ==> (#[trigger] projects[j]).0 != projects[i].0,
    ensures
        project_names_spec(projects).contains_key(projects[i].0->0),
        project_names_spec(projects)[projects[i].0->0] == projects[i].1->0,
    decreases projects.len(),
{
    let init = projects.drop_last();
    if i < projects.len() - 1 {
        assert(projects.last() == projects[projects.len() - 1]);
        assert(projects.last().0 != projects[i].0);
        assert(projects.last().0 is Some && projects[i].0 is Some);
        assert forall|j: int| i < j < init.len() implies (#[trigger] init[j]).0 != init[i].0 by {
            assert(init[j] == projects[j]);
        }
        assert forall|j: int| 0 <= j < init.len() implies (#[trigger] init[j]).0 is Some
            && init[j].1 is Some by {
            assert(init[j] == projects[j]);
        }
        lemma_project_names_last_wins(init, i);
    }
}

/// A URL has a name in the map exactly when some project reports it.
pub proof fn lemma_project_names_domain(
    projects: Seq<(Option<Seq<char>>, Option<Seq<char>>)>,
    url: Seq<char>,
)
    requires
        projects_complete(projects),
    ensures
        project_names_spec(projects).contains_key(url) <==> exists|i: int|
            0 <= i < projects.len() && (#[trigger] projects[i]).0 == Some(url),
    decreases projects.len(),
{
    if projects.len() > 0 {
        let init = projects.drop_last();
        assert forall|j: int| 0 <= j < init.len() implies (#[trigger] init[j]).0 is Some
            && init[j].1 is Some by {
            assert(init[j] == projects[j]);
        }
        lemma_project_names_domain(init, url);
        assert(projects.last() == projects[projects.len() - 1]);
        if exists|i: int| 0 <= i < init.len() && (#[trigger] init[i]).0 == Some(url) {
            let i = choose|i: int| 0 <= i < init.len() && (#[trigger] init[i]).0 == Some(url);
            assert(projects[i] == init[i]);
        }
        if exists|i: int| 0 <= i < projects.len() && (#[trigger] projects[i]).0 == Some(url) {
            let i = choose|i: int| 0 <= i < projects.len() && (#[trigger] projects[i]).0 == Some(url);
            if i < projects.len() - 1 {
                assert(init[i] == projects[i]);
            }
        }
    }
}

} // verus!
