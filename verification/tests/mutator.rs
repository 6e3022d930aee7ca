use patcherd::admission::{admission_step, is_injected, namespace_for, AdmissionAction, AdmissionEvent};
use patcherd::mutator::{
    apply_patch, containers_for_patch, ensure_patcher_install, ensure_volume, has_mount_at, inject,
    normalize_hex, sanitize_name, slug_for, InjectError,
};
use patcherd::hexcode::HexDecodeError;
use patcherd::text::file_name;
use patcherd::pod::{Container, Pod, PodSpec, Volume, VolumeMount};
use patcherd::types::{BinaryPatch, PatchRuleSpec, Selector};

fn container(name: &str, image: Option<&str>) -> Container {
    Container {
        name: name.to_string(),
        image: image.map(|s| s.to_string()),
        command: None,
        args: None,
        volume_mounts: None,
    }
}

fn pod_with(containers: Vec<Container>) -> Pod {
    Pod {
        spec: Some(PodSpec { containers, init_containers: None, volumes: None }),
        annotations: None,
    }
}

fn patch(path: &str, find: &str, replace: &str, container_name: Option<&str>) -> BinaryPatch {
    BinaryPatch {
        binary_path: path.to_string(),
        find: find.to_string(),
        replace: replace.to_string(),
        container_name: container_name.map(|s| s.to_string()),
    }
}

fn rule(patches: Vec<BinaryPatch>, image: Option<&str>) -> PatchRuleSpec {
    PatchRuleSpec {
        selector: Selector::default(),
        patches,
        patcher_image: image.map(|s| s.to_string()),
    }
}

#[test]
fn sanitize_lowercases_and_dashes() {
    assert_eq!(sanitize_name("patch-Foo_Bar/baz"), "patch-foo-bar-baz");
    assert_eq!(sanitize_name("--A--"), "a");
    assert_eq!(sanitize_name("---"), "");
}

#[test]
fn sanitize_truncates_to_63_bytes() {
    let long = "a".repeat(70);
    assert_eq!(sanitize_name(&long), "a".repeat(63));
    let mut dashes = "-".repeat(70);
    dashes.push('b');
    assert_eq!(sanitize_name(&dashes), "");
    let mut tail = "x".repeat(62);
    tail.push_str("-yz");
    assert_eq!(sanitize_name(&tail), "x".repeat(62));
}

#[test]
fn sanitize_makes_dns_labels() {
    assert_eq!(sanitize_name("."), "");
    assert_eq!(sanitize_name("patch-libc.so.6-1a2b3c4d"), "patch-libc-so-6-1a2b3c4d");
    assert_eq!(sanitize_name("a b+c"), "a-b-c");
    assert_eq!(sanitize_name("caf\u{e9}"), "caf");
    // 62 ASCII characters then a two-byte character straddling byte 63
    let mut straddle = "a".repeat(62);
    straddle.push('\u{e9}');
    straddle.push('z');
    assert_eq!(sanitize_name(&straddle), "a".repeat(62));
    let mut inner = "a".repeat(61);
    inner.push('\u{e9}');
    inner.push('z');
    assert_eq!(sanitize_name(&inner), format!("{}-z", "a".repeat(61)));
}

#[test]
fn normalize_hex_strips_and_uppercases() {
    assert_eq!(normalize_hex("de ad, 0xbe"), "DEADBE");
    assert_eq!(normalize_hex("0Xab"), "AB");
}

#[test]
fn slug_uses_file_name_and_hash() {
    assert_eq!(slug_for("app", "/usr/bin/curl"), "curl-31130b4d");
    assert_eq!(slug_for("app", "/opt/tool"), "tool-6b1a6f63");
    assert_eq!(slug_for("side", "/usr/bin/curl"), "curl-5be6a1a7");
}

#[test]
fn slug_without_file_name_uses_bin() {
    let s = slug_for("app", "/");
    assert!(s.starts_with("bin-"));
    assert_eq!(s.len(), 12);
}

#[test]
fn ensure_volume_adds_once() {
    let mut pod = pod_with(vec![]);
    let spec = pod.spec.as_mut().unwrap();
    ensure_volume(spec, "v");
    ensure_volume(spec, "v");
    let vols = spec.volumes.as_ref().unwrap();
    assert_eq!(vols.len(), 1);
    assert_eq!(vols[0].name, "v");
    assert!(vols[0].empty_dir);
}

#[test]
fn ensure_install_prepends_once() {
    let mut spec = PodSpec {
        containers: vec![],
        init_containers: Some(vec![container("first", None)]),
        volumes: None,
    };
    ensure_patcher_install(&mut spec, "img");
    ensure_patcher_install(&mut spec, "other");
    let ics = spec.init_containers.as_ref().unwrap();
    assert_eq!(ics.len(), 2);
    assert_eq!(ics[0].name, "patcher-install");
    assert_eq!(ics[0].image.as_deref(), Some("img"));
    assert_eq!(ics[1].name, "first");
}

#[test]
fn containers_selection() {
    let pod = pod_with(vec![container("a", None), container("b", None), container("a", None)]);
    let spec = pod.spec.as_ref().unwrap();
    assert_eq!(containers_for_patch(spec, &Some("a".to_string())), vec![0, 2]);
    assert_eq!(containers_for_patch(spec, &None), vec![0, 1, 2]);
    assert!(containers_for_patch(spec, &Some("zz".to_string())).is_empty());
}

#[test]
fn mount_detection() {
    let mut c = container("a", None);
    assert!(!has_mount_at(&c, "/x"));
    c.volume_mounts = Some(vec![VolumeMount {
        name: "v".to_string(),
        mount_path: "/x".to_string(),
        read_only: None,
        sub_path: None,
    }]);
    assert!(has_mount_at(&c, "/x"));
    assert!(!has_mount_at(&c, "/y"));
}

#[test]
fn apply_patch_errors_leave_spec() {
    let mut pod = pod_with(vec![container("app", Some("img"))]);
    let spec = pod.spec.as_mut().unwrap();
    let r = apply_patch(spec, &patch("/bin/x", "ABC", "DEF", None));
    assert!(matches!(r, Err(InjectError::Hex { hex_error: HexDecodeError::OddLength })));
    let r = apply_patch(spec, &patch("/bin/x", "AB", "CDEF", None));
    assert!(matches!(r, Err(InjectError::LengthMismatch { find_len: 1, replace_len: 2, .. })));
    assert!(spec.init_containers.is_none());
    assert!(spec.containers[0].volume_mounts.is_none());
}

#[test]
fn inject_full_pod() {
    let mut pod = pod_with(vec![container("app", Some("img")), container("side", None)]);
    let rules = vec![rule(vec![patch("/usr/bin/curl", "de ad", "0xbe,0xef", Some("app"))], None)];
    inject(&mut pod, &rules).unwrap();

    let spec = pod.spec.as_ref().unwrap();
    let vols = spec.volumes.as_ref().unwrap();
    assert_eq!(vols.len(), 2);
    assert_eq!(vols[0].name, "patcher-tools");
    assert_eq!(vols[1].name, "patched-bins");

    let ics = spec.init_containers.as_ref().unwrap();
    assert_eq!(ics.len(), 2);
    assert_eq!(ics[0].name, "patcher-install");
    assert_eq!(ics[0].image.as_deref(), Some("ghcr.io/cfi2017/patcherd/patcher:latest"));
    assert_eq!(ics[1].name, "patch-curl-31130b4d");
    assert_eq!(ics[1].image.as_deref(), Some("img"));
    assert_eq!(
        ics[1].args.as_ref().unwrap(),
        &vec![
            "--input".to_string(),
            "/usr/bin/curl".to_string(),
            "--output".to_string(),
            "/patched-bins/curl-31130b4d".to_string(),
            "--find".to_string(),
            "DEAD".to_string(),
            "--replace".to_string(),
            "BEEF".to_string(),
        ]
    );
    assert_eq!(ics[1].command.as_ref().unwrap(), &vec!["/patch-tools/patcher".to_string()]);

    let mounts = spec.containers[0].volume_mounts.as_ref().unwrap();
    assert_eq!(mounts.len(), 1);
    assert_eq!(mounts[0].name, "patched-bins");
    assert_eq!(mounts[0].mount_path, "/usr/bin/curl");
    assert_eq!(mounts[0].sub_path.as_deref(), Some("curl-31130b4d"));
    assert!(spec.containers[1].volume_mounts.is_none());

    let ann = pod.annotations.as_ref().unwrap();
    assert_eq!(ann, &vec![("patcher.k8s.io/injected".to_string(), "true".to_string())]);
    assert!(is_injected(&pod.annotations));
}

#[test]
fn inject_twice_changes_nothing_more() {
    let mut pod = pod_with(vec![container("app", Some("img"))]);
    let rules = vec![rule(vec![patch("/usr/bin/curl", "DEAD", "BEEF", None)], Some("my/patcher"))];
    inject(&mut pod, &rules).unwrap();
    inject(&mut pod, &rules).unwrap();
    let spec = pod.spec.as_ref().unwrap();
    assert_eq!(spec.volumes.as_ref().unwrap().len(), 2);
    let ics = spec.init_containers.as_ref().unwrap();
    assert_eq!(ics.len(), 2);
    assert_eq!(ics[0].image.as_deref(), Some("my/patcher"));
    assert_eq!(spec.containers[0].volume_mounts.as_ref().unwrap().len(), 1);
    assert_eq!(pod.annotations.as_ref().unwrap().len(), 1);
}

#[test]
fn inject_keeps_existing_volumes_and_annotations() {
    let mut pod = pod_with(vec![container("app", None)]);
    pod.spec.as_mut().unwrap().volumes =
        Some(vec![Volume { name: "patched-bins".to_string(), empty_dir: false }]);
    pod.annotations = Some(vec![
        ("a".to_string(), "1".to_string()),
        ("patcher.k8s.io/injected".to_string(), "false".to_string()),
    ]);
    inject(&mut pod, &[]).unwrap();
    let vols = pod.spec.as_ref().unwrap().volumes.as_ref().unwrap();
    assert_eq!(vols.len(), 2);
    assert_eq!(vols[0].name, "patched-bins");
    assert!(!vols[0].empty_dir);
    assert_eq!(vols[1].name, "patcher-tools");
    let ann = pod.annotations.as_ref().unwrap();
    assert_eq!(ann[0], ("a".to_string(), "1".to_string()));
    assert_eq!(ann[1], ("patcher.k8s.io/injected".to_string(), "true".to_string()));
}

#[test]
fn inject_without_spec_fails() {
    let mut pod = Pod { spec: None, annotations: None };
    assert!(matches!(inject(&mut pod, &[]), Err(InjectError::NoSpec)));
    assert!(pod.annotations.is_none());
}

#[test]
fn inject_error_keeps_earlier_changes() {
    let mut pod = pod_with(vec![container("app", None)]);
    let rules = vec![
        rule(vec![patch("/bin/a", "AA", "BB", None)], None),
        rule(vec![patch("/bin/b", "AA", "B", None)], None),
    ];
    assert!(matches!(inject(&mut pod, &rules), Err(InjectError::Hex { .. })));
    let spec = pod.spec.as_ref().unwrap();
    assert_eq!(spec.init_containers.as_ref().unwrap().len(), 2);
    assert!(pod.annotations.is_none());
}

#[test]
fn inject_handles_long_non_ascii_names() {
    let long_name = format!("/bin/{}\u{e9}zz", "a".repeat(56));
    let mut pod = pod_with(vec![container("app", None)]);
    let rules = vec![rule(vec![patch(&long_name, "AA", "BB", None)], None)];
    inject(&mut pod, &rules).unwrap();
    let spec = pod.spec.as_ref().unwrap();
    let ics = spec.init_containers.as_ref().unwrap();
    assert_eq!(ics.len(), 2);
    let name = &ics[1].name;
    assert!(name.len() <= 63);
    assert!(name.chars().all(|c| c.is_ascii_lowercase() || c.is_ascii_digit() || c == '-'));
    assert!(!name.starts_with('-') && !name.ends_with('-'));
    assert!(name.starts_with("patch-aaaa"));
}

#[test]
fn admission_helpers() {
    assert!(!is_injected(&None));
    assert!(!is_injected(&Some(vec![("patcher.k8s.io/injected".to_string(), "yes".to_string())])));
    assert_eq!(namespace_for(&Some("a".to_string()), &Some("b".to_string())), "a");
    assert_eq!(namespace_for(&None, &Some("b".to_string())), "b");
    assert_eq!(namespace_for(&None, &None), "default");
}

#[test]
fn admission_decisions() {
    let received = |has_pod: bool, annotations: Option<Vec<(String, String)>>| AdmissionEvent::Received {
        has_pod,
        annotations,
        request_namespace: None,
        pod_namespace: Some("ns".to_string()),
    };
    assert!(matches!(admission_step(received(false, None)), AdmissionAction::Deny));
    let marked = Some(vec![("patcher.k8s.io/injected".to_string(), "true".to_string())]);
    assert!(matches!(admission_step(received(true, marked)), AdmissionAction::Allow));
    match admission_step(received(true, None)) {
        AdmissionAction::ListRules { namespace } => assert_eq!(namespace, "ns"),
        _ => panic!("expected a listing"),
    }
    assert!(matches!(admission_step(AdmissionEvent::RulesListed { matching: None }), AdmissionAction::Allow));
    assert!(matches!(admission_step(AdmissionEvent::RulesListed { matching: Some(0) }), AdmissionAction::Allow));
    assert!(matches!(admission_step(AdmissionEvent::RulesListed { matching: Some(2) }), AdmissionAction::Inject));
    assert!(matches!(admission_step(AdmissionEvent::Injected { succeeded: false }), AdmissionAction::Allow));
    assert!(matches!(admission_step(AdmissionEvent::Injected { succeeded: true }), AdmissionAction::Patch));
}

#[test]
fn apply_patch_twice_changes_nothing() {
    let mut pod = pod_with(vec![container("app", Some("img"))]);
    let spec = pod.spec.as_mut().unwrap();
    let p = patch("/usr/lib/libc.so.6", "AA", "BB", None);
    apply_patch(spec, &p).unwrap();
    let ics = spec.init_containers.as_ref().unwrap().len();
    let mounts = spec.containers[0].volume_mounts.as_ref().unwrap().len();
    assert!(spec.init_containers.as_ref().unwrap()[0].name.starts_with("patch-libc-so-6-"));
    apply_patch(spec, &p).unwrap();
    assert_eq!(spec.init_containers.as_ref().unwrap().len(), ics);
    assert_eq!(spec.containers[0].volume_mounts.as_ref().unwrap().len(), mounts);
}

#[test]
fn inject_keeps_annotation_keys_unique() {
    let mut pod = pod_with(vec![container("app", None)]);
    pod.annotations = Some(vec![
        ("a".to_string(), "1".to_string()),
        ("patcher.k8s.io/injected".to_string(), "false".to_string()),
    ]);
    let rules = vec![rule(vec![patch("/bin/x", "AA", "BB", None)], None)];
    inject(&mut pod, &rules).unwrap();
    let annotations = pod.annotations.unwrap();
    assert_eq!(annotations.len(), 2);
    assert_eq!(annotations[1], ("patcher.k8s.io/injected".to_string(), "true".to_string()));
}

#[test]
fn file_name_follows_std_paths() {
    for p in [
        "/usr/bin/foo", "foo", "foo/", "foo/.", "foo/./", "./foo", ".", "./", "..", "foo/..", "/",
        "", "//a//b//", "a/./.", "...", "/.hidden", "a/.../", "x/../y",
    ] {
        let std_name = std::path::Path::new(p).file_name().and_then(|n| n.to_str()).map(String::from);
        assert_eq!(file_name(p), std_name, "path {:?}", p);
    }
    assert!(slug_for("app", "/usr/bin/foo").starts_with("foo-"));
    assert!(slug_for("app", "/usr/bin/..").starts_with("bin-"));
}
