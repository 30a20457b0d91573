//! The feature sets that a measurement run builds, and their configuration
//! tokens.

use crate::subsets::{
    combinations, combinations_up_to, curated_combinations, is_rising, lemma_combinations_all,
    lemma_curated_exact, lemma_distinct_items_distinct_sets, lemma_enumeration_exact,
    lemma_up_to_saturates, picks_up_to, select,
};
use itertools::Itertools;
use vstd::prelude::*;
use vstd::string::StringExecFns;

verus! {

/// The parts with `separator` between each two neighbours.
pub open spec fn joined(parts: Seq<Seq<char>>, separator: Seq<char>) -> Seq<char>
    decreases parts.len(),
{
    if parts.len() == 0 {
        Seq::empty()
    } else if parts.len() == 1 {
        parts[0]
    } else {
        joined(parts.drop_last(), separator) + separator + parts.last()
    }
}

/// The configuration token of a feature set: its names with commas between.
pub open spec fn label_of(set: Seq<Seq<char>>) -> Seq<char> {
    joined(set, seq![','])
}

/// Calls `Itertools::combinations` on clones of the items and collects what
/// the iterator yields. It starts from the first `k` positions and steps to
/// the next choice of positions in lexicographic order until the last `k`
/// are reached, and yields for each choice the items at its positions: the
/// combinations as `combinations` lists them. With `k` above the number of
/// items it would set up `k` positions before it yields nothing, so it is not
/// called with such a `k`.
#[verifier::external_body]
fn combinations_of(items: &Vec<String>, k: usize) -> (sets: Vec<Vec<String>>)
    requires
        k <= items.len(),
    ensures
        sets.deep_view() == combinations(items.deep_view(), k as nat),
{
    items.iter().cloned().combinations(k).collect()
}

/// The deep view of a concatenation is the concatenation of the deep views.
proof fn lemma_deep_view_concat(
    whole: Vec<Vec<String>>,
    left: Vec<Vec<String>>,
    right: Vec<Vec<String>>,
)
    requires
        whole@ == left@ + right@,
    ensures
        whole.deep_view() == left.deep_view() + right.deep_view(),
{
    assert(whole.deep_view() =~= left.deep_view() + right.deep_view());
}

/// Every combination of at most `max_size` of the features: the empty set,
/// then the sets of one feature, of two, and so on, each size in the order of
/// the positions picked.
pub fn feature_sets(features: &Vec<String>, max_size: usize) -> (sets: Vec<Vec<String>>)
    ensures
        sets.deep_view() == combinations_up_to(features.deep_view(), max_size as nat),
{
    let top = if max_size < features.len() {
        max_size
    } else {
        features.len()
    };
    let mut sets = combinations_of(features, 0);
    let mut k: usize = 0;
    while k < top
        invariant
            k <= top <= features.len(),
            sets.deep_view() == combinations_up_to(features.deep_view(), k as nat),
        decreases top - k,
    {
        k = k + 1;
        let mut more = combinations_of(features, k);
        let ghost before = sets;
        let ghost added = more;
        sets.append(&mut more);
        proof {
            lemma_deep_view_concat(sets, before, added);
        }
    }
    proof {
        if max_size as nat > features.deep_view().len() {
            lemma_up_to_saturates(features.deep_view(), max_size as nat);
        }
    }
    sets
}

/// The curated list for a comparison: the baseline without any feature, each
/// feature alone, each pair of features, and all features together. A set is
/// listed once, also where the features are so few that all of them together
/// are no more than a pair.
pub fn curated_feature_sets(features: &Vec<String>) -> (sets: Vec<Vec<String>>)
    ensures
        sets.deep_view() == curated_combinations(features.deep_view()),
{
    let mut sets = feature_sets(features, 2);
    if features.len() > 2 {
        let mut all = combinations_of(features, features.len());
        let ghost before = sets;
        let ghost added = all;
        sets.append(&mut all);
        proof {
            lemma_deep_view_concat(sets, before, added);
            lemma_combinations_all(features.deep_view());
        }
    }
    sets
}

/// The configuration token of a feature set: its names, with a comma between
/// each two. The empty set gives the empty token.
pub fn join_features(set: &Vec<String>) -> (label: String)
    ensures
        label@ == label_of(set.deep_view()),
{
    let mut label = String::new();
    let mut i: usize = 0;
    while i < set.len()
        invariant
            i <= set.len(),
            label@ == label_of(set.deep_view().take(i as int)),
        decreases set.len() - i,
    {
        let ghost parts = set.deep_view().take(i + 1);
        if i > 0 {
            proof {
                reveal_strlit(",");
            }
            label.append(",");
            assert(","@ =~= seq![',']);
        }
        label.append(set[i].as_str());
        proof {
            assert(parts.drop_last() =~= set.deep_view().take(i as int));
            assert(parts.last() == set[i as int]@);
            assert(label@ =~= label_of(parts));
        }
        i = i + 1;
    }
    assert(set.deep_view().take(set.len() as int) =~= set.deep_view());
    label
}

/// The configuration tokens of the given feature sets, in their order.
pub fn feature_labels(sets: &Vec<Vec<String>>) -> (labels: Vec<String>)
    ensures
        labels.len() == sets.len(),
        forall|j: int|
            0 <= j < sets.len() ==> (#[trigger] labels[j])@ == label_of(sets[j].deep_view()),
{
    let mut labels: Vec<String> = Vec::new();
    let mut j: usize = 0;
    while j < sets.len()
        invariant
            j <= sets.len(),
            labels.len() == j,
            forall|i: int|
                0 <= i < j ==> (#[trigger] labels[i])@ == label_of(sets[i].deep_view()),
        decreases sets.len() - j,
    {
        labels.push(join_features(&sets[j]));
        j = j + 1;
    }
    labels
}

/// Whether `name` can stand in a configuration token: it is not empty and
/// holds no comma.
pub open spec fn is_plain_name(name: Seq<char>) -> bool {
    name.len() > 0 && forall|i: int| 0 <= i < name.len() ==> #[trigger] name[i] != ','
}

/// Whether all the names are plain.
pub open spec fn all_plain(names: Seq<Seq<char>>) -> bool {
    forall|i: int| 0 <= i < names.len() ==> is_plain_name(#[trigger] names[i])
}

/// The token of one plain name or more is not empty, and it holds a comma
/// just when the names are two or more.
proof fn lemma_label_shape(set: Seq<Seq<char>>)
    requires
        all_plain(set),
        set.len() >= 1,
    ensures
        label_of(set).len() >= 1,
        set.len() == 1 ==> label_of(set) == set[0],
        set.len() >= 2 ==> label_of(set) == label_of(set.drop_last()) + seq![','] + set.last(),
{
    assert(is_plain_name(set[set.len() - 1]));
    assert(is_plain_name(set[0]));
}

/// Two tokens that end in a comma and a plain name each, and are the same
/// text, end in the same name after the same text.
proof fn lemma_same_last_name(x: Seq<char>, l: Seq<char>, y: Seq<char>, m: Seq<char>)
    requires
        is_plain_name(l),
        is_plain_name(m),
        x + seq![','] + l == y + seq![','] + m,
    ensures
        x == y,
        l == m,
{
    let s = x + seq![','] + l;
    let t = y + seq![','] + m;
    assert(s.len() == x.len() + 1 + l.len());
    assert(t.len() == y.len() + 1 + m.len());
    if l.len() < m.len() {
        assert(s[x.len() as int] == ',');
        assert(t[x.len() as int] == m[x.len() - y.len() - 1]);
    }
    if m.len() < l.len() {
        assert(t[y.len() as int] == ',');
        assert(s[y.len() as int] == l[y.len() - x.len() - 1]);
    }
    assert(x =~= y) by {
        assert forall|i: int| 0 <= i < x.len() implies x[i] == y[i] by {
            assert(s[i] == x[i]);
            assert(t[i] == y[i]);
        }
    }
    assert(l =~= m) by {
        assert forall|i: int| 0 <= i < l.len() implies l[i] == m[i] by {
            assert(s[x.len() + 1 + i] == l[i]);
            assert(t[y.len() + 1 + i] == m[i]);
        }
    }
}

/// The token tells the set: two lists of plain names with the same token are
/// the same list.
pub proof fn lemma_label_tells_set(a: Seq<Seq<char>>, b: Seq<Seq<char>>)
    requires
        all_plain(a),
        all_plain(b),
        label_of(a) == label_of(b),
    ensures
        a == b,
    decreases a.len(),
{
    if a.len() == 0 || b.len() == 0 {
        if a.len() > 0 {
            lemma_label_shape(a);
        }
        if b.len() > 0 {
            lemma_label_shape(b);
        }
        assert(a =~= b);
    } else {
        lemma_label_shape(a);
        lemma_label_shape(b);
        assert(is_plain_name(a[a.len() - 1]));
        assert(is_plain_name(b[b.len() - 1]));
        if a.len() == 1 && b.len() == 1 {
            assert(a =~= b);
        } else if a.len() == 1 {
            let at = label_of(b.drop_last()).len() as int;
            assert(label_of(b)[at] == ',');
            assert(a[0][at] == ',');
        } else if b.len() == 1 {
            let at = label_of(a.drop_last()).len() as int;
            assert(label_of(a)[at] == ',');
            assert(b[0][at] == ',');
        } else {
            let shorter_a = a.drop_last();
            let shorter_b = b.drop_last();
            lemma_same_last_name(label_of(shorter_a), a.last(), label_of(shorter_b), b.last());
            assert(all_plain(shorter_a)) by {
                assert forall|i: int| 0 <= i < shorter_a.len() implies is_plain_name(
                    #[trigger] shorter_a[i],
                ) by {
                    assert(shorter_a[i] == a[i]);
                }
            }
            assert(all_plain(shorter_b)) by {
                assert forall|i: int| 0 <= i < shorter_b.len() implies is_plain_name(
                    #[trigger] shorter_b[i],
                ) by {
                    assert(shorter_b[i] == b[i]);
                }
            }
            lemma_label_tells_set(shorter_a, shorter_b);
            assert(a =~= shorter_a.push(a.last()));
            assert(b =~= shorter_b.push(b.last()));
        }
    }
}

/// What is picked from plain names are plain names.
proof fn lemma_selected_plain(features: Seq<Seq<char>>, picked: Seq<int>)
    requires
        all_plain(features),
        is_rising(picked, 0, features.len() as int),
    ensures
        all_plain(select(features, picked)),
{
    let set = select(features, picked);
    assert forall|i: int| 0 <= i < set.len() implies is_plain_name(#[trigger] set[i]) by {
        assert(0 <= picked[i] < features.len());
        assert(set[i] == features[picked[i]]);
    }
}

/// The law of the tokens. Where the feature names are plain and no name
/// occurs twice, the combinations of at most `k` of them have tokens that
/// differ from each other, and so have the sets of the curated list: no
/// configuration is built twice.
pub proof fn lemma_labels_unique(features: Seq<Seq<char>>, k: nat)
    requires
        all_plain(features),
        features.no_duplicates(),
    ensures
        forall|i: int, j: int|
            0 <= i < j < combinations_up_to(features, k).len() ==> label_of(
                #[trigger] combinations_up_to(features, k)[i],
            ) != label_of(#[trigger] combinations_up_to(features, k)[j]),
        forall|i: int, j: int|
            0 <= i < j < curated_combinations(features).len() ==> label_of(
                #[trigger] curated_combinations(features)[i],
            ) != label_of(#[trigger] curated_combinations(features)[j]),
{
    let sets = combinations_up_to(features, k);
    let picks = picks_up_to(features.len(), k);
    lemma_enumeration_exact(features, k);
    lemma_distinct_items_distinct_sets(features, k);
    assert forall|i: int, j: int| 0 <= i < j < sets.len() implies label_of(#[trigger] sets[i])
        != label_of(#[trigger] sets[j]) by {
        assert(sets[i] == select(features, picks[i]));
        assert(sets[j] == select(features, picks[j]));
        lemma_selected_plain(features, picks[i]);
        lemma_selected_plain(features, picks[j]);
        if label_of(sets[i]) == label_of(sets[j]) {
            lemma_label_tells_set(sets[i], sets[j]);
        }
    }
    let small = combinations_up_to(features, 2);
    let small_picks = picks_up_to(features.len(), 2);
    let curated = curated_combinations(features);
    lemma_enumeration_exact(features, 2);
    lemma_curated_exact(features);
    assert forall|i: int, j: int| 0 <= i < j < curated.len() implies label_of(
        #[trigger] curated[i],
    ) != label_of(#[trigger] curated[j]) by {
        assert(all_plain(curated[i])) by {
            if i < small.len() {
                assert(small[i] == select(features, small_picks[i]));
                lemma_selected_plain(features, small_picks[i]);
            }
        }
        assert(all_plain(curated[j])) by {
            if j < small.len() {
                assert(small[j] == select(features, small_picks[j]));
                lemma_selected_plain(features, small_picks[j]);
            }
        }
        if label_of(curated[i]) == label_of(curated[j]) {
            lemma_label_tells_set(curated[i], curated[j]);
        }
    }
}

} // verus!
