//! The decisions of the admission webhook that do not need the cluster.

use vstd::prelude::*;

use crate::mutator::{insert_entry, inject_spec, ANNOTATION_INJECTED};
use crate::pod::{pairs_view, PodView};
use crate::types::{label_lookup, lookup, PatchRuleSpec};

verus! {

/// The value of the first entry with key `k`.
pub open spec fn entry_lookup(es: Seq<(Seq<char>, Seq<char>)>, k: Seq<char>) -> Option<Seq<char>>
    decreases es.len(),
{
    if es.len() == 0 {
        None
    } else if es[0].0 == k {
        Some(es[0].1)
    } else {
        entry_lookup(es.drop_first(), k)
    }
}

/// The annotations of a pod as values.
pub open spec fn annotations_view(annotations: Option<Vec<(String, String)>>) -> Option<
    Seq<(Seq<char>, Seq<char>)>,
> {
    match annotations {
        Some(a) => Some(pairs_view(a)),
        None => None,
    }
}

/// The pod's annotations mark it as injected already.
pub open spec fn injected(annotations: Option<Seq<(Seq<char>, Seq<char>)>>) -> bool {
    match annotations {
        Some(a) => entry_lookup(a, ANNOTATION_INJECTED@) == Some("true"@),
        None => false,
    }
}

proof fn lemma_lookup_view(a: Seq<(String, String)>, k: Seq<char>)
    ensures
        label_lookup(a, k) == entry_lookup(a.map_values(|e: (String, String)| (e.0@, e.1@)), k),
    decreases a.len(),
{
    let m = a.map_values(|e: (String, String)| (e.0@, e.1@));
    if a.len() > 0 {
        assert(m.drop_first() =~= a.drop_first().map_values(|e: (String, String)| (e.0@, e.1@)));
        lemma_lookup_view(a.drop_first(), k);
    }
}

/// Setting a key and reading it back gives the value set.
pub proof fn lemma_insert_entry_lookup(es: Seq<(Seq<char>, Seq<char>)>, k: Seq<char>, v: Seq<char>)
    ensures
        entry_lookup(insert_entry(es, k, v), k) == Some(v),
    decreases es.len(),
{
    if es.len() > 0 && es[0].0 != k {
        lemma_insert_entry_lookup(es.drop_first(), k, v);
        assert(insert_entry(es, k, v).drop_first() =~= insert_entry(es.drop_first(), k, v));
    }
}

/// The entries of a map: no key occurs twice.
pub open spec fn keys_unique(es: Seq<(Seq<char>, Seq<char>)>) -> bool {
    forall|i: int, j: int| 0 <= i < j < es.len() ==> #[trigger] es[i].0 != #[trigger] es[j].0
}

/// Every key after setting `k` is `k` or was there before.
proof fn lemma_insert_entry_keys(es: Seq<(Seq<char>, Seq<char>)>, k: Seq<char>, v: Seq<char>)
    ensures
        forall|i: int|
            0 <= i < insert_entry(es, k, v).len() ==> #[trigger] insert_entry(es, k, v)[i].0 == k
                || exists|j: int| 0 <= j < es.len() && es[j].0 == insert_entry(es, k, v)[i].0,
    decreases es.len(),
{
    let r = insert_entry(es, k, v);
    if es.len() > 0 && es[0].0 != k {
        let rest = es.drop_first();
        lemma_insert_entry_keys(rest, k, v);
        assert forall|i: int| 0 <= i < r.len() implies #[trigger] r[i].0 == k || exists|j: int|
            0 <= j < es.len() && es[j].0 == r[i].0 by {
            if i == 0 {
                assert(es[0].0 == r[0].0);
            } else {
                let ri = insert_entry(rest, k, v);
                assert(r[i] == ri[i - 1]);
                if ri[i - 1].0 != k {
                    let j = choose|j: int| 0 <= j < rest.len() && rest[j].0 == ri[i - 1].0;
                    assert(es[j + 1] == rest[j]);
                }
            }
        }
    } else if es.len() > 0 {
        assert forall|i: int| 0 <= i < r.len() implies #[trigger] r[i].0 == k || exists|j: int|
            0 <= j < es.len() && es[j].0 == r[i].0 by {
            if i > 0 {
                assert(r[i] == es[i]);
            }
        }
    }
}

/// Law: setting a key keeps the entries a map (no key twice).
pub proof fn lemma_insert_entry_keeps_unique(es: Seq<(Seq<char>, Seq<char>)>, k: Seq<char>, v: Seq<char>)
    requires
        keys_unique(es),
    ensures
        keys_unique(insert_entry(es, k, v)),
    decreases es.len(),
{
    let r = insert_entry(es, k, v);
    if es.len() > 0 {
        let rest = es.drop_first();
        if es[0].0 == k {
            assert forall|i: int, j: int| 0 <= i < j < r.len() implies #[trigger] r[i].0
                != #[trigger] r[j].0 by {
                assert(r[j] == es[j]);
                if i > 0 {
                    assert(r[i] == es[i]);
                }
            }
        } else {
            assert forall|i: int, j: int| 0 <= i < j < rest.len() implies #[trigger] rest[i].0
                != #[trigger] rest[j].0 by {
                assert(rest[i] == es[i + 1] && rest[j] == es[j + 1]);
            }
            lemma_insert_entry_keeps_unique(rest, k, v);
            lemma_insert_entry_keys(rest, k, v);
            let ri = insert_entry(rest, k, v);
            assert forall|i: int, j: int| 0 <= i < j < r.len() implies #[trigger] r[i].0
                != #[trigger] r[j].0 by {
                assert(r[j] == ri[j - 1]);
                if i > 0 {
                    assert(r[i] == ri[i - 1]);
                } else {
                    assert(r[0] == es[0]);
                    if ri[j - 1].0 != k {
                        let m = choose|m: int| 0 <= m < rest.len() && rest[m].0 == ri[j - 1].0;
                        assert(rest[m] == es[m + 1]);
                    }
                }
            }
        }
    }
}

/// With no key twice, the first entry with key `k` is the only one: the
/// lookup gives the map's value whatever the order of the entries.
pub proof fn lemma_entry_lookup_unique(es: Seq<(Seq<char>, Seq<char>)>, i: int)
    requires
        keys_unique(es),
        0 <= i < es.len(),
    ensures
        entry_lookup(es, es[i].0) == Some(es[i].1),
    decreases i,
{
    if i > 0 {
        let rest = es.drop_first();
        assert(es[0].0 != es[i].0);
        assert forall|a: int, b: int| 0 <= a < b < rest.len() implies #[trigger] rest[a].0
            != #[trigger] rest[b].0 by {
            assert(rest[a] == es[a + 1] && rest[b] == es[b + 1]);
        }
        assert(rest[i - 1] == es[i]);
        lemma_entry_lookup_unique(rest, i - 1);
    }
}

/// Law: the injection keeps the pod's annotations a map (no key twice).
pub proof fn lemma_inject_keeps_unique_annotations(pod: PodView, rules: Seq<PatchRuleSpec>)
    requires
        pod.annotations matches Some(a) ==> keys_unique(a),
    ensures
        inject_spec(pod, rules).0.annotations matches Some(a) ==> keys_unique(a),
{
    let es = crate::mutator::unwrap_or_empty(pod.annotations);
    lemma_insert_entry_keeps_unique(es, ANNOTATION_INJECTED@, "true"@);
}

/// Law: a pod that the injection went through on is marked as injected, so
/// the webhook leaves it alone the next time.
pub proof fn lemma_inject_marks_injected(pod: PodView, rules: Seq<PatchRuleSpec>)
    requires
        inject_spec(pod, rules).1 is None,
    ensures
        injected(inject_spec(pod, rules).0.annotations),
{
    let es = crate::mutator::unwrap_or_empty(pod.annotations);
    lemma_insert_entry_lookup(es, ANNOTATION_INJECTED@, "true"@);
}

/// Whether the pod was injected already (its injected annotation is `true`).
pub fn is_injected(annotations: &Option<Vec<(String, String)>>) -> (r: bool)
    ensures
        r == injected(annotations_view(*annotations)),
{
    proof {
        if let Some(a) = annotations {
            lemma_lookup_view(a@, ANNOTATION_INJECTED@);
        }
    }
    match annotations {
        Some(a) => {
            let key = ANNOTATION_INJECTED.to_owned();
            match lookup(a, &key) {
                Some(v) => {
                    let expected = "true".to_owned();
                    *v == expected
                },
                None => false,
            }
        },
        None => false,
    }
}

/// The namespace to look for rules in: the request's, else the pod's, else
/// `default`.
pub open spec fn namespace_spec(request_namespace: Option<String>, pod_namespace: Option<String>) -> Seq<
    char,
> {
    match (request_namespace, pod_namespace) {
        (Some(n), _) => n@,
        (None, Some(n)) => n@,
        (None, None) => "default"@,
    }
}

/// The namespace to look for rules in: the request's, else the pod's, else
/// `default`.
pub fn namespace_for(request_namespace: &Option<String>, pod_namespace: &Option<String>) -> (r:
    String)
    ensures
        r@ == namespace_spec(*request_namespace, *pod_namespace),
        request_namespace matches Some(n) ==> r@ == n@,
        request_namespace is None ==> (pod_namespace matches Some(n) ==> r@ == n@),
        request_namespace is None && pod_namespace is None ==> r@ == "default"@,
{
    match request_namespace {
        Some(n) => n.clone(),
        None => match pod_namespace {
            Some(n) => n.clone(),
            None => "default".to_owned(),
        },
    }
}

/// Law of [`namespace_for`]: a namespace on the request wins, whatever the
/// pod says; the pod's namespace is used only when the request has none, and
/// `default` only when neither has one.
pub proof fn lemma_namespace_choice(request_namespace: Option<String>, pod_namespace: Option<String>)
    ensures
        request_namespace matches Some(n) ==> namespace_spec(request_namespace, pod_namespace) == n@,
        request_namespace is None ==> (pod_namespace matches Some(n) ==> namespace_spec(
            request_namespace,
            pod_namespace,
        ) == n@),
        request_namespace is None && pod_namespace is None ==> namespace_spec(
            request_namespace,
            pod_namespace,
        ) == "default"@,
{
}

/// What the webhook does next with an admission request.
pub enum AdmissionAction {
    /// Refuse the request: it carries no pod.
    Deny,
    /// Let the pod through unchanged.
    Allow,
    /// List the PatchRules of this namespace that select the pod.
    ListRules { namespace: String },
    /// Inject the matching rules into a copy of the pod.
    Inject,
    /// Answer with the JSON patch from the pod to its injected copy.
    Patch,
}

/// What the webhook has learned about an admission request.
pub enum AdmissionEvent {
    /// The request arrived: whether it carries a pod, the pod's annotations
    /// and the two namespaces.
    Received {
        has_pod: bool,
        annotations: Option<Vec<(String, String)>>,
        request_namespace: Option<String>,
        pod_namespace: Option<String>,
    },
    /// The rules were listed: how many select the pod, `None` if listing
    /// failed.
    RulesListed { matching: Option<usize> },
    /// The injection into the copy of the pod ran.
    Injected { succeeded: bool },
}

/// The webhook's decision on each event: deny a request without a pod,
/// allow a pod that is injected already, that no rule selects, or on which
/// listing or injection failed; otherwise go on to list the rules, inject
/// them, and answer with the patch.
pub fn admission_step(event: AdmissionEvent) -> (r: AdmissionAction)
    ensures
        match event {
            AdmissionEvent::Received { has_pod, annotations, request_namespace, pod_namespace } => {
                if !has_pod {
                    r is Deny
                } else if injected(annotations_view(annotations)) {
                    r is Allow
                } else {
                    &&& r matches AdmissionAction::ListRules { namespace } && namespace@
                        == namespace_spec(request_namespace, pod_namespace)
                    &&& request_namespace matches Some(n) ==> r matches AdmissionAction::ListRules {
                        namespace,
                    } && namespace@ == n@
                }
            },
            AdmissionEvent::RulesListed { matching } => match matching {
                Some(n) => if n > 0 {
                    r is Inject
                } else {
                    r is Allow
                },
                None => r is Allow,
            },
            AdmissionEvent::Injected { succeeded } => if succeeded {
                r is Patch
            } else {
                r is Allow
            },
        },
{
    match event {
        AdmissionEvent::Received { has_pod, annotations, request_namespace, pod_namespace } => {
            if !has_pod {
                AdmissionAction::Deny
            } else if is_injected(&annotations) {
                AdmissionAction::Allow
            } else {
                AdmissionAction::ListRules {
                    namespace: namespace_for(&request_namespace, &pod_namespace),
                }
            }
        },
        AdmissionEvent::RulesListed { matching } => match matching {
            Some(n) => if n > 0 {
                AdmissionAction::Inject
            } else {
                AdmissionAction::Allow
            },
            None => AdmissionAction::Allow,
        },
        AdmissionEvent::Injected { succeeded } => if succeeded {
            AdmissionAction::Patch
        } else {
            AdmissionAction::Allow
        },
    }
}

} // verus!
