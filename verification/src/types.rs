//! The PatchRule custom resource, and label selection.

use vstd::prelude::*;

use crate::text::opt_view;

verus! {

/// Spec of a PatchRule custom resource.
#[derive(Clone, Debug)]
pub struct PatchRuleSpec {
    pub selector: Selector,
    pub patches: Vec<BinaryPatch>,
    pub patcher_image: Option<String>,
}

/// Label selector: supports matchLabels only.  The labels are the entries of
/// a map, each key once (see [`labels_unique`]).
#[derive(Clone, Debug)]
pub struct Selector {
    pub match_labels: Option<Vec<(String, String)>>,
}

/// A single binary patch specification.
#[derive(Clone, Debug)]
pub struct BinaryPatch {
    pub binary_path: String,
    pub find: String,
    pub replace: String,
    pub container_name: Option<String>,
}

/// A binary patch as values.
pub struct PatchView {
    pub binary_path: Seq<char>,
    pub find: Seq<char>,
    pub replace: Seq<char>,
    pub container_name: Option<Seq<char>>,
}

impl View for BinaryPatch {
    type V = PatchView;

    open spec fn view(&self) -> PatchView {
        PatchView {
            binary_path: self.binary_path@,
            find: self.find@,
            replace: self.replace@,
            container_name: opt_view(self.container_name),
        }
    }
}

/// The value that the label map gives for `key` (the first entry with that
/// key; a map has one at most).
pub open spec fn label_lookup(labels: Seq<(String, String)>, key: Seq<char>) -> Option<Seq<char>>
    decreases labels.len(),
{
    if labels.len() == 0 {
        None
    } else if labels[0].0@ == key {
        Some(labels[0].1@)
    } else {
        label_lookup(labels.drop_first(), key)
    }
}

/// Every required label is present with the required value.
pub open spec fn labels_satisfy(required: Seq<(String, String)>, labels: Seq<(String, String)>) -> bool {
    forall|i: int|
        0 <= i < required.len() ==> label_lookup(labels, (#[trigger] required[i]).0@) == Some(
            required[i].1@,
        )
}

/// The label entries of a map: no key occurs twice.
pub open spec fn labels_unique(labels: Seq<(String, String)>) -> bool {
    forall|i: int, j: int| 0 <= i < j < labels.len() ==> #[trigger] labels[i].0@ != #[trigger] labels[j].0@
}

/// The entry `(key, value)` is among the labels.
pub open spec fn has_label(labels: Seq<(String, String)>, key: Seq<char>, value: Seq<char>) -> bool {
    exists|j: int| 0 <= j < labels.len() && #[trigger] labels[j].0@ == key && labels[j].1@ == value
}

/// With no key twice, looking a key up gives `value` exactly when
/// `(key, value)` is one of the entries, whatever their order.
pub proof fn lemma_label_lookup_unique(labels: Seq<(String, String)>, key: Seq<char>, value: Seq<char>)
    requires
        labels_unique(labels),
    ensures
        label_lookup(labels, key) == Some(value) <==> has_label(labels, key, value),
    decreases labels.len(),
{
    if labels.len() > 0 {
        let rest = labels.drop_first();
        assert forall|i: int, j: int| 0 <= i < j < rest.len() implies #[trigger] rest[i].0@
            != #[trigger] rest[j].0@ by {
            assert(rest[i] == labels[i + 1] && rest[j] == labels[j + 1]);
        }
        lemma_label_lookup_unique(rest, key, value);
        if has_label(rest, key, value) {
            let j = choose|j: int| 0 <= j < rest.len() && #[trigger] rest[j].0@ == key && rest[j].1@ == value;
            assert(labels[j + 1] == rest[j]);
        }
        if has_label(labels, key, value) {
            let j = choose|j: int| 0 <= j < labels.len() && #[trigger] labels[j].0@ == key && labels[j].1@ == value;
            if j > 0 {
                assert(rest[j - 1] == labels[j]);
                assert(labels[0].0@ != labels[j].0@);
            }
        }
    }
}

/// Law of [`Selector::matches`]: on labels with no key twice, a selector
/// with matchLabels selects exactly when each required entry is one of the
/// labels, and one without selects everything.
pub proof fn lemma_selects_unique(sel: Selector, labels: Seq<(String, String)>)
    requires
        labels_unique(labels),
    ensures
        sel.selects(labels) <==> match sel.match_labels {
            Some(required) => forall|i: int|
                0 <= i < required@.len() ==> has_label(labels, (#[trigger] required@[i]).0@, required@[i].1@),
            None => true,
        },
{
    if let Some(required) = sel.match_labels {
        assert forall|i: int| 0 <= i < required@.len() implies (label_lookup(
            labels,
            (#[trigger] required@[i]).0@,
        ) == Some(required@[i].1@) <==> has_label(labels, required@[i].0@, required@[i].1@)) by {
            lemma_label_lookup_unique(labels, required@[i].0@, required@[i].1@);
        }
    }
}

impl Selector {
    /// Whether the labels satisfy this selector.
    pub open spec fn selects(&self, labels: Seq<(String, String)>) -> bool {
        match self.match_labels {
            Some(required) => labels_satisfy(required@, labels),
            None => true,
        }
    }

    /// Returns true if the given labels satisfy this selector.
    pub fn matches(&self, labels: &Vec<(String, String)>) -> (r: bool)
        ensures
            r == self.selects(labels@),
    {
        match &self.match_labels {
            Some(required) => {
                let mut i: usize = 0;
                while i < required.len()
                    invariant
                        0 <= i <= required@.len(),
                        self.match_labels == Some(*required),
                        forall|j: int|
                            0 <= j < i ==> label_lookup(labels@, (#[trigger] required@[j]).0@)
                                == Some(required@[j].1@),
                    decreases required@.len() - i,
                {
                    let found = lookup(labels, &required[i].0);
                    let ghost want = required@[i as int];
                    match found {
                        Some(v) => {
                            if !(*v == required[i].1) {
                                assert(label_lookup(labels@, want.0@) != Some(want.1@));
                                return false;
                            }
                        },
                        None => {
                            assert(label_lookup(labels@, want.0@) != Some(want.1@));
                            return false;
                        },
                    }
                    i = i + 1;
                }
                true
            },
            None => true,
        }
    }
}

impl Default for Selector {
    fn default() -> (r: Self)
        ensures
            r.match_labels is None,
    {
        Selector { match_labels: None }
    }
}

/// The value of the first entry with key `key`.
pub fn lookup<'a>(labels: &'a Vec<(String, String)>, key: &String) -> (r: Option<&'a String>)
    ensures
        match label_lookup(labels@, key@) {
            Some(v) => r matches Some(s) && s@ == v,
            None => r is None,
        },
{
    let mut i: usize = 0;
    assert(labels@.skip(0) =~= labels@);
    while i < labels.len()
        invariant
            0 <= i <= labels@.len(),
            label_lookup(labels@, key@) == label_lookup(labels@.skip(i as int), key@),
        decreases labels@.len() - i,
    {
        assert(labels@.skip(i as int).drop_first() =~= labels@.skip(i + 1));
        if labels[i].0 == *key {
            return Some(&labels[i].1);
        }
        i = i + 1;
    }
    None
}

/// The rules whose selector matches the labels, in order.
pub fn select_rules(rules: Vec<PatchRuleSpec>, labels: &Vec<(String, String)>) -> (r: Vec<
    PatchRuleSpec,
>)
    ensures
        r@ == rules@.filter(|rule: PatchRuleSpec| rule.selector.selects(labels@)),
{
    let ghost all = rules@;
    let ghost pred = |rule: PatchRuleSpec| rule.selector.selects(labels@);
    let mut kept: Vec<PatchRuleSpec> = Vec::new();
    for rule in it: rules.into_iter()
        invariant
            it.seq() == all,
            pred == (|rule: PatchRuleSpec| rule.selector.selects(labels@)),
            kept@ == all.take(it.index() as int).filter(pred),
    {
        let ghost idx = it.index() as int;
        let ghost x = rule;
        assert(all[idx] == x);
        if rule.selector.matches(labels) {
            kept.push(rule);
        }
        proof {
            assert(all.take(idx + 1).drop_last() =~= all.take(idx));
            assert(all.take(idx + 1).last() == x);
            reveal_with_fuel(Seq::<_>::filter, 1);
        }
    }
    assert(all.take(all.len() as int) =~= all);
    kept
}

} // verus!
