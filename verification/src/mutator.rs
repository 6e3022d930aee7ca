//! The rules that inject the binary patcher into a pod: two shared volumes,
//! an init container that installs the patcher, one init container per
//! patched binary and container, and a mount that shadows each original
//! binary with its patched copy.

use vstd::prelude::*;
use vstd::utf8::encode_utf8;

use crate::hexcode::{clean_hex, cleaned_hex, hex_decode, hex_decode_spec, HexDecodeError};
use crate::pod::{
    Container, ContainerView, MountView, Pod, PodSpec, PodSpecView, PodView, Volume, VolumeMount,
    VolumeView, pairs_view,
};
use crate::text::{
    chars_of, file_name, hex_encode, hex_lower, lower_case, push_char, sha256, string_of_range,
    unix_file_name,
    sha256_digest, to_lowercase, to_uppercase, upper_case,
};
use crate::types::{BinaryPatch, PatchRuleSpec, PatchView};

verus! {

pub const TOOLS_VOLUME_NAME: &'static str = "patcher-tools";

pub const BINS_VOLUME_NAME: &'static str = "patched-bins";

pub const TOOLS_MOUNT_PATH: &'static str = "/patch-tools";

pub const BINS_MOUNT_PATH: &'static str = "/patched-bins";

pub const DEFAULT_PATCHER_IMAGE: &'static str = "ghcr.io/cfi2017/patcherd/patcher:latest";

pub const ANNOTATION_INJECTED: &'static str = "patcher.k8s.io/injected";

pub const INSTALL_CONTAINER_NAME: &'static str = "patcher-install";

pub const INSTALL_SCRIPT: &'static str = "cp /patcher /patch-tools/ && chmod +x /patch-tools/patcher";

pub const PATCHER_COMMAND: &'static str = "/patch-tools/patcher";

/// Why an injection failed.
#[derive(Debug)]
pub enum InjectError {
    /// The pod has no spec.
    NoSpec,
    /// A find or replace string is no valid hex.
    Hex { hex_error: HexDecodeError },
    /// The find and replace bytes of a patch differ in length.
    LengthMismatch { find_len: usize, replace_len: usize, binary_path: String },
}

/// The failures of the injection, as the contracts speak of them.
pub enum InjectFailure {
    NoSpec,
    Hex(HexDecodeError),
    Length(nat, nat, Seq<char>),
}

/// Whether the error `e` is the failure `f`.
pub open spec fn failure_is(e: InjectError, f: InjectFailure) -> bool {
    match f {
        InjectFailure::NoSpec => e is NoSpec,
        InjectFailure::Hex(h) => e == InjectError::Hex { hex_error: h },
        InjectFailure::Length(a, b, path) => e matches InjectError::LengthMismatch {
            find_len,
            replace_len,
            binary_path,
        } && find_len == a && replace_len == b && binary_path@ == path,
    }
}

// ---------------------------------------------------------------------------
// Specifications
// ---------------------------------------------------------------------------

pub open spec fn unwrap_or_empty<T>(o: Option<Seq<T>>) -> Seq<T> {
    match o {
        Some(s) => s,
        None => seq![],
    }
}

pub open spec fn has_volume(vs: Seq<VolumeView>, name: Seq<char>) -> bool {
    exists|i: int| 0 <= i < vs.len() && (#[trigger] vs[i]).name == name
}

pub open spec fn has_container(cs: Seq<ContainerView>, name: Seq<char>) -> bool {
    exists|i: int| 0 <= i < cs.len() && (#[trigger] cs[i]).name == name
}

/// The container already has a mount at `path`.
pub open spec fn mounts_at(c: ContainerView, path: Seq<char>) -> bool {
    match c.volume_mounts {
        Some(ms) => exists|i: int| 0 <= i < ms.len() && (#[trigger] ms[i]).mount_path == path,
        None => false,
    }
}

/// The spec with a volume of that name: added as an `emptyDir` if missing.
pub open spec fn ensure_volume_spec(spec: PodSpecView, name: Seq<char>) -> PodSpecView {
    let vs = unwrap_or_empty(spec.volumes);
    PodSpecView {
        containers: spec.containers,
        init_containers: spec.init_containers,
        volumes: Some(
            if has_volume(vs, name) {
                vs
            } else {
                vs.push(VolumeView { name: name, empty_dir: true })
            },
        ),
    }
}

/// The init container that copies the patcher into the tools volume.
pub open spec fn install_container(image: Seq<char>) -> ContainerView {
    ContainerView {
        name: INSTALL_CONTAINER_NAME@,
        image: Some(image),
        command: Some(seq!["/bin/sh"@, "-c"@, INSTALL_SCRIPT@]),
        args: None,
        volume_mounts: Some(
            seq![
                MountView {
                    name: TOOLS_VOLUME_NAME@,
                    mount_path: TOOLS_MOUNT_PATH@,
                    read_only: None,
                    sub_path: None,
                },
            ],
        ),
    }
}

/// The spec with the install container first among the init containers,
/// unless one of that name is there already.
pub open spec fn ensure_install_spec(spec: PodSpecView, image: Seq<char>) -> PodSpecView {
    let ics = unwrap_or_empty(spec.init_containers);
    PodSpecView {
        containers: spec.containers,
        init_containers: Some(
            if has_container(ics, INSTALL_CONTAINER_NAME@) {
                ics
            } else {
                seq![install_container(image)] + ics
            },
        ),
        volumes: spec.volumes,
    }
}

/// The file name of the binary, else `bin`.
pub open spec fn base_name(binary_path: Seq<char>) -> Seq<char> {
    match unix_file_name(binary_path) {
        Some(n) => n,
        None => "bin"@,
    }
}

/// The slug of a (container, binary path) pair: the binary's file name, a
/// dash, and the first four bytes of the SHA-256 of `container:path` in hex.
pub open spec fn slug_spec(container_name: Seq<char>, binary_path: Seq<char>) -> Seq<char> {
    base_name(binary_path) + "-"@ + hex_lower(
        sha256_digest(encode_utf8(container_name + ":"@ + binary_path)).take(4),
    )
}

/// A character that a Kubernetes name may hold: `a`-`z`, `0`-`9` and `-`.
pub open spec fn dns_char(c: char) -> bool {
    ('a' <= c && c <= 'z') || ('0' <= c && c <= '9') || c == '-'
}

/// Every character that a Kubernetes name may not hold turned into `-`.
pub open spec fn dashify(cs: Seq<char>) -> Seq<char> {
    cs.map_values(|c: char| if dns_char(c) { c } else { '-' })
}

/// `cs` cut to its first 63 characters if it is longer.
pub open spec fn truncate_name(cs: Seq<char>) -> Seq<char> {
    if cs.len() > 63 {
        cs.take(63)
    } else {
        cs
    }
}

pub open spec fn trim_start_dashes(cs: Seq<char>) -> Seq<char>
    decreases cs.len(),
{
    if cs.len() > 0 && cs[0] == '-' {
        trim_start_dashes(cs.drop_first())
    } else {
        cs
    }
}

pub open spec fn trim_end_dashes(cs: Seq<char>) -> Seq<char>
    decreases cs.len(),
{
    if cs.len() > 0 && cs.last() == '-' {
        trim_end_dashes(cs.drop_last())
    } else {
        cs
    }
}

/// A Kubernetes resource name made from `s`: lower-cased, every character
/// other than `a`-`z`, `0`-`9` and `-` made a dash, cut to 63 characters
/// (which are single bytes), dashes trimmed from both ends.
pub open spec fn sanitize_spec(s: Seq<char>) -> Seq<char> {
    trim_end_dashes(trim_start_dashes(truncate_name(dashify(lower_case(s)))))
}

/// A hex string stripped of decorations and upper-cased.
pub open spec fn normalize_spec(s: Seq<char>) -> Seq<char> {
    upper_case(cleaned_hex(s))
}

/// What decoding a normalized hex string gives.
pub open spec fn decode_spec(s: Seq<char>) -> Result<Seq<u8>, HexDecodeError> {
    hex_decode_spec(encode_utf8(normalize_spec(s)))
}

/// The init container that patches one binary for one container.
pub open spec fn patch_init_container(
    name: Seq<char>,
    image: Seq<char>,
    p: PatchView,
    output_path: Seq<char>,
) -> ContainerView {
    ContainerView {
        name: name,
        image: Some(image),
        command: Some(seq![PATCHER_COMMAND@]),
        args: Some(
            seq![
                "--input"@,
                p.binary_path,
                "--output"@,
                output_path,
                "--find"@,
                normalize_spec(p.find),
                "--replace"@,
                normalize_spec(p.replace),
            ],
        ),
        volume_mounts: Some(
            seq![
                MountView {
                    name: TOOLS_VOLUME_NAME@,
                    mount_path: TOOLS_MOUNT_PATH@,
                    read_only: Some(true),
                    sub_path: None,
                },
                MountView {
                    name: BINS_VOLUME_NAME@,
                    mount_path: BINS_MOUNT_PATH@,
                    read_only: None,
                    sub_path: None,
                },
            ],
        ),
    }
}

/// The name of the init container that patches `p` for a container.
pub open spec fn init_name_spec(container_name: Seq<char>, p: PatchView) -> Seq<char> {
    sanitize_spec("patch-"@ + slug_spec(container_name, p.binary_path))
}

/// The spec after patching `p` for container `i`: its init container is
/// appended unless one of that name exists, and the container gets a mount
/// of its patched binary over the original unless something is mounted there.
pub open spec fn patch_container_spec(spec: PodSpecView, p: PatchView, i: int) -> PodSpecView {
    let c = spec.containers[i];
    let slug = slug_spec(c.name, p.binary_path);
    let output_path = BINS_MOUNT_PATH@ + "/"@ + slug;
    let init_name = init_name_spec(c.name, p);
    let image = unwrap_or_empty(c.image);
    let init = patch_init_container(init_name, image, p, output_path);
    let ics = unwrap_or_empty(spec.init_containers);
    let mounted = ContainerView {
        name: c.name,
        image: c.image,
        command: c.command,
        args: c.args,
        volume_mounts: Some(
            unwrap_or_empty(c.volume_mounts).push(
                MountView {
                    name: BINS_VOLUME_NAME@,
                    mount_path: p.binary_path,
                    read_only: None,
                    sub_path: Some(slug),
                },
            ),
        ),
    };
    PodSpecView {
        containers: spec.containers.update(
            i,
            if mounts_at(c, p.binary_path) {
                c
            } else {
                mounted
            },
        ),
        init_containers: Some(
            if has_container(ics, init_name) {
                ics
            } else {
                ics.push(init)
            },
        ),
        volumes: spec.volumes,
    }
}

/// The names of the containers, in order.
pub open spec fn names_of(cs: Seq<ContainerView>) -> Seq<Seq<char>> {
    cs.map_values(|c: ContainerView| c.name)
}

/// The indices from `j` on of the names equal to `name`, or all of them.
pub open spec fn selected_from(names: Seq<Seq<char>>, name: Option<Seq<char>>, j: int) -> Seq<usize>
    decreases names.len() - j,
{
    if j < 0 || j >= names.len() {
        seq![]
    } else {
        let here = match name {
            Some(n) => names[j] == n,
            None => true,
        };
        (if here {
            seq![j as usize]
        } else {
            seq![]
        }) + selected_from(names, name, j + 1)
    }
}

/// The containers a patch applies to: those of its container name, or all.
pub open spec fn selected(cs: Seq<ContainerView>, name: Option<Seq<char>>) -> Seq<usize> {
    selected_from(names_of(cs), name, 0)
}

/// The spec after patching `p` for each container of `idxs`, in order.
pub open spec fn patch_containers(spec: PodSpecView, p: PatchView, idxs: Seq<usize>) -> PodSpecView
    decreases idxs.len(),
{
    if idxs.len() == 0 {
        spec
    } else {
        patch_containers(patch_container_spec(spec, p, idxs[0] as int), p, idxs.drop_first())
    }
}

/// What applying one patch does: its hex strings must decode to bytes of the
/// same length, and then every selected container is patched.
pub open spec fn apply_patch_spec(spec: PodSpecView, p: PatchView) -> Result<PodSpecView, InjectFailure> {
    match decode_spec(p.find) {
        Err(e) => Err(InjectFailure::Hex(e)),
        Ok(f) => match decode_spec(p.replace) {
            Err(e) => Err(InjectFailure::Hex(e)),
            Ok(r) => if f.len() != r.len() {
                Err(InjectFailure::Length(f.len(), r.len(), p.binary_path))
            } else {
                Ok(patch_containers(spec, p, selected(spec.containers, p.container_name)))
            },
        },
    }
}

/// The patch decodes, so that the containers get patched.
pub open spec fn patch_decodes(p: PatchView) -> bool {
    match (decode_spec(p.find), decode_spec(p.replace)) {
        (Ok(f), Ok(r)) => f.len() == r.len(),
        _ => false,
    }
}

/// The spec after applying the patches in order, stopping at the first
/// failure.
pub open spec fn apply_patches_spec(spec: PodSpecView, ps: Seq<BinaryPatch>) -> (PodSpecView, Option<
    InjectFailure,
>)
    decreases ps.len(),
{
    if ps.len() == 0 {
        (spec, None)
    } else {
        match apply_patch_spec(spec, ps[0]@) {
            Err(f) => (spec, Some(f)),
            Ok(s2) => apply_patches_spec(s2, ps.drop_first()),
        }
    }
}

/// The spec after applying the patches of each rule in order, stopping at
/// the first failure.
pub open spec fn apply_rules_spec(spec: PodSpecView, rules: Seq<PatchRuleSpec>) -> (PodSpecView, Option<
    InjectFailure,
>)
    decreases rules.len(),
{
    if rules.len() == 0 {
        (spec, None)
    } else {
        let (s2, f) = apply_patches_spec(spec, rules[0].patches@);
        if f is Some {
            (s2, f)
        } else {
            apply_rules_spec(s2, rules.drop_first())
        }
    }
}

/// Every patch of the rules decodes.
pub open spec fn all_decode(ps: Seq<BinaryPatch>) -> bool {
    forall|j: int| 0 <= j < ps.len() ==> patch_decodes((#[trigger] ps[j])@)
}

/// The patcher image: the first one a rule names, else the default.
pub open spec fn first_image(rules: Seq<PatchRuleSpec>) -> Seq<char>
    decreases rules.len(),
{
    if rules.len() == 0 {
        DEFAULT_PATCHER_IMAGE@
    } else {
        match rules[0].patcher_image {
            Some(im) => im@,
            None => first_image(rules.drop_first()),
        }
    }
}

/// The map entries with `k` set to `v`.
pub open spec fn insert_entry(es: Seq<(Seq<char>, Seq<char>)>, k: Seq<char>, v: Seq<char>) -> Seq<
    (Seq<char>, Seq<char>),
>
    decreases es.len(),
{
    if es.len() == 0 {
        seq![(k, v)]
    } else if es[0].0 == k {
        seq![(k, v)] + es.drop_first()
    } else {
        seq![es[0]] + insert_entry(es.drop_first(), k, v)
    }
}

/// The pod after the injection (with the changes made before a failure),
/// and the failure if any.
pub open spec fn inject_spec(pod: PodView, rules: Seq<PatchRuleSpec>) -> (PodView, Option<InjectFailure>) {
    match pod.spec {
        None => (pod, Some(InjectFailure::NoSpec)),
        Some(sp) => {
            let prepared = ensure_install_spec(
                ensure_volume_spec(ensure_volume_spec(sp, TOOLS_VOLUME_NAME@), BINS_VOLUME_NAME@),
                first_image(rules),
            );
            let (patched, f) = apply_rules_spec(prepared, rules);
            if f is Some {
                (PodView { spec: Some(patched), annotations: pod.annotations }, f)
            } else {
                (
                    PodView {
                        spec: Some(patched),
                        annotations: Some(
                            insert_entry(
                                unwrap_or_empty(pod.annotations),
                                ANNOTATION_INJECTED@,
                                "true"@,
                            ),
                        ),
                    },
                    None,
                )
            }
        },
    }
}


// ---------------------------------------------------------------------------
// helpers
// ---------------------------------------------------------------------------

/// Whether two strings hold the same characters.
fn same_text(a: &str, b: &str) -> (r: bool)
    ensures
        r == (a@ == b@),
{
    let x = chars_of(a);
    let y = chars_of(b);
    if x.len() != y.len() {
        return false;
    }
    let mut i: usize = 0;
    while i < x.len()
        invariant
            0 <= i <= x@.len(),
            x@ == a@,
            y@ == b@,
            x@.len() == y@.len(),
            forall|j: int| 0 <= j < i ==> x@[j] == y@[j],
        decreases x@.len() - i,
    {
        if x[i] != y[i] {
            assert(a@[i as int] != b@[i as int]);
            return false;
        }
        i = i + 1;
    }
    assert(x@ =~= y@);
    true
}

/// Whether some volume is named `name`.
fn has_volume_named(vs: &Vec<Volume>, name: &str) -> (r: bool)
    ensures
        r == has_volume(crate::pod::volumes_view(*vs), name@),
{
    let ghost view = crate::pod::volumes_view(*vs);
    let mut i: usize = 0;
    while i < vs.len()
        invariant
            0 <= i <= vs@.len(),
            view == crate::pod::volumes_view(*vs),
            forall|j: int| 0 <= j < i ==> (#[trigger] view[j]).name != name@,
        decreases vs@.len() - i,
    {
        if same_text(vs[i].name.as_str(), name) {
            assert(view[i as int].name == name@);
            return true;
        }
        i = i + 1;
    }
    false
}

/// Whether some container is named `name`.
fn has_container_named(cs: &Vec<Container>, name: &str) -> (r: bool)
    ensures
        r == has_container(crate::pod::containers_view(*cs), name@),
{
    let ghost view = crate::pod::containers_view(*cs);
    let mut i: usize = 0;
    while i < cs.len()
        invariant
            0 <= i <= cs@.len(),
            view == crate::pod::containers_view(*cs),
            forall|j: int| 0 <= j < i ==> (#[trigger] view[j]).name != name@,
        decreases cs@.len() - i,
    {
        if same_text(cs[i].name.as_str(), name) {
            assert(view[i as int].name == name@);
            return true;
        }
        i = i + 1;
    }
    false
}

/// Make sure the spec has a volume named `name` (an `emptyDir` if added).
pub fn ensure_volume(spec: &mut PodSpec, name: &str)
    ensures
        final(spec)@ == ensure_volume_spec(old(spec)@, name@),
{
    let mut volumes = match spec.volumes.take() {
        Some(v) => v,
        None => Vec::new(),
    };
    let ghost before = crate::pod::volumes_view(volumes);
    assert(before == unwrap_or_empty(old(spec)@.volumes)) by {
        if old(spec).volumes is None {
            assert(before =~= Seq::<VolumeView>::empty());
        }
    }
    if !has_volume_named(&volumes, name) {
        volumes.push(Volume { name: name.to_owned(), empty_dir: true });
        assert(crate::pod::volumes_view(volumes) =~= before.push(
            VolumeView { name: name@, empty_dir: true },
        ));
    }
    spec.volumes = Some(volumes);
}

/// Strings of `items`, in order.
fn owned_strs(items: &[&str]) -> (r: Vec<String>)
    ensures
        r@.len() == items@.len(),
        forall|i: int| 0 <= i < items@.len() ==> (#[trigger] r@[i])@ == items@[i]@,
{
    let mut out: Vec<String> = Vec::new();
    let mut i: usize = 0;
    while i < items.len()
        invariant
            0 <= i <= items@.len(),
            out@.len() == i,
            forall|j: int| 0 <= j < i ==> (#[trigger] out@[j])@ == items@[j]@,
        decreases items@.len() - i,
    {
        out.push(items[i].to_owned());
        i = i + 1;
    }
    out
}

/// Make sure the patcher-install init container exists; it is prepended so
/// that it runs before any patch init container.
pub fn ensure_patcher_install(spec: &mut PodSpec, image: &str)
    ensures
        final(spec)@ == ensure_install_spec(old(spec)@, image@),
{
    let mut init_containers = match spec.init_containers.take() {
        Some(v) => v,
        None => Vec::new(),
    };
    let ghost before = crate::pod::containers_view(init_containers);
    assert(before == unwrap_or_empty(old(spec)@.init_containers)) by {
        if old(spec).init_containers is None {
            assert(before =~= Seq::<ContainerView>::empty());
        }
    }
    if has_container_named(&init_containers, INSTALL_CONTAINER_NAME) {
        spec.init_containers = Some(init_containers);
        return;
    }
    let command = owned_strs(&["/bin/sh", "-c", INSTALL_SCRIPT]);
    let mut mounts: Vec<VolumeMount> = Vec::new();
    mounts.push(
        VolumeMount {
            name: TOOLS_VOLUME_NAME.to_owned(),
            mount_path: TOOLS_MOUNT_PATH.to_owned(),
            read_only: None,
            sub_path: None,
        },
    );
    let container = Container {
        name: INSTALL_CONTAINER_NAME.to_owned(),
        image: Some(image.to_owned()),
        command: Some(command),
        args: None,
        volume_mounts: Some(mounts),
    };
    assert(container@ == install_container(image@)) by {
        assert(crate::pod::strs(command) =~= seq!["/bin/sh"@, "-c"@, INSTALL_SCRIPT@]);
        assert(crate::pod::mounts_view(mounts) =~= seq![
            MountView {
                name: TOOLS_VOLUME_NAME@,
                mount_path: TOOLS_MOUNT_PATH@,
                read_only: None,
                sub_path: None,
            },
        ]);
    }
    let ghost c = container@;
    init_containers.insert(0, container);
    assert(crate::pod::containers_view(init_containers) =~= seq![c] + before);
    spec.init_containers = Some(init_containers);
}

/// Whether the container already has a mount at `path`.
pub fn has_mount_at(container: &Container, path: &str) -> (r: bool)
    ensures
        r == mounts_at(container@, path@),
{
    match &container.volume_mounts {
        Some(mounts) => {
            let ghost view = crate::pod::mounts_view(*mounts);
            let mut i: usize = 0;
            while i < mounts.len()
                invariant
                    0 <= i <= mounts@.len(),
                    view == crate::pod::mounts_view(*mounts),
                    container.volume_mounts == Some(*mounts),
                    forall|j: int| 0 <= j < i ==> (#[trigger] view[j]).mount_path != path@,
                decreases mounts@.len() - i,
            {
                if same_text(mounts[i].mount_path.as_str(), path) {
                    assert(view[i as int].mount_path == path@);
                    return true;
                }
                i = i + 1;
            }
            false
        },
        None => false,
    }
}

/// Indices of containers matching the given name (or all if there is none).
pub fn containers_for_patch(spec: &PodSpec, container_name: &Option<String>) -> (r: Vec<usize>)
    ensures
        r@ == selected(spec@.containers, crate::text::opt_view(*container_name)),
{
    let ghost cs = names_of(spec@.containers);
    let ghost name = crate::text::opt_view(*container_name);
    let mut out: Vec<usize> = Vec::new();
    let mut j: usize = 0;
    let n = spec.containers.len();
    while j < n
        invariant
            0 <= j <= n,
            n == cs.len(),
            cs == names_of(spec@.containers),
            name == crate::text::opt_view(*container_name),
            out@ + selected_from(cs, name, j as int) == selected_from(cs, name, 0),
        decreases n - j,
    {
        let here = match container_name {
            Some(wanted) => same_text(spec.containers[j].name.as_str(), wanted.as_str()),
            None => true,
        };
        assert(cs[j as int] == spec.containers@[j as int]@.name);
        let ghost before = out@;
        if here {
            out.push(j);
            assert(out@ + selected_from(cs, name, j + 1) =~= before + selected_from(cs, name, j as int));
        } else {
            assert(before + selected_from(cs, name, j + 1) =~= before + selected_from(cs, name, j as int));
        }
        j = j + 1;
    }
    assert(out@ + Seq::<usize>::empty() =~= out@);
    out
}

/// Strip decorations so the patcher CLI gets a plain hex string.
pub fn normalize_hex(s: &str) -> (r: String)
    ensures
        r@ == normalize_spec(s@),
{
    let cleaned = clean_hex(s);
    to_uppercase(cleaned.as_str())
}

/// Decode a hex string after normalizing it.
pub fn decode_hex(s: &str) -> (r: Result<Vec<u8>, HexDecodeError>)
    ensures
        match decode_spec(s@) {
            Ok(bytes) => r matches Ok(v) && v@ == bytes,
            Err(e) => r == Err::<Vec<u8>, HexDecodeError>(e),
        },
{
    let cleaned = normalize_hex(s);
    hex_decode(cleaned.as_str().as_bytes())
}

/// Produce a short unique slug for a (container, binaryPath) pair.
pub fn slug_for(container_name: &str, binary_path: &str) -> (r: String)
    ensures
        r@ == slug_spec(container_name@, binary_path@),
{
    let mut keyed = String::new();
    keyed.append(container_name);
    keyed.append(":");
    keyed.append(binary_path);
    let hash = sha256(keyed.as_str().as_bytes());
    let head = &hash.as_slice()[0..4];
    assert(head@ =~= hash@.take(4));
    let digits = hex_encode(head);
    let mut slug = match file_name(binary_path) {
        Some(n) => n,
        None => "bin".to_owned(),
    };
    slug.append("-");
    slug.append(digits.as_str());
    slug
}

/// Whether `c` may stand in a Kubernetes name.
fn is_dns_char(c: char) -> (r: bool)
    ensures
        r == dns_char(c),
{
    ('a' <= c && c <= 'z') || ('0' <= c && c <= '9') || c == '-'
}

/// Every character that a Kubernetes name may not hold turned into `-`.
fn dashify_chars(cs: &Vec<char>) -> (d: Vec<char>)
    ensures
        d@ == dashify(cs@),
{
    let ghost t = dashify(cs@);
    let mut d: Vec<char> = Vec::new();
    let mut k: usize = 0;
    while k < cs.len()
        invariant
            0 <= k <= cs@.len(),
            t == dashify(cs@),
            d@ =~= t.take(k as int),
        decreases cs@.len() - k,
    {
        let c = cs[k];
        if is_dns_char(c) {
            d.push(c);
        } else {
            d.push('-');
        }
        k = k + 1;
        assert(d@ =~= t.take(k as int));
    }
    assert(d@ =~= t);
    d
}

/// How many characters of `t` are kept when it is cut to 63 characters.
fn kept_count(t: &Vec<char>) -> (i: usize)
    ensures
        i <= t@.len(),
        truncate_name(t@) == t@.take(i as int),
{
    if t.len() > 63 {
        63
    } else {
        assert(t@.take(t@.len() as int) =~= t@);
        t.len()
    }
}

/// The bounds `[a, b)` of `u` without its leading and trailing dashes.
fn dash_trim_bounds(d: &Vec<char>, i: usize) -> (r: (usize, usize))
    requires
        i <= d@.len(),
    ensures
        r.0 <= r.1 <= i,
        trim_end_dashes(trim_start_dashes(d@.take(i as int))) == d@.subrange(r.0 as int, r.1 as int),
{
    let ghost u = d@.take(i as int);
    let mut a: usize = 0;
    assert(u.skip(0) =~= u);
    while a < i && d[a] == '-'
        invariant
            0 <= a <= i,
            i <= d@.len(),
            u == d@.take(i as int),
            trim_start_dashes(u) == trim_start_dashes(u.skip(a as int)),
        decreases i - a,
    {
        assert(u.skip(a as int).drop_first() =~= u.skip(a + 1));
        a = a + 1;
    }
    let ghost v = u.skip(a as int);
    assert(trim_start_dashes(v) == v);
    let mut b: usize = i;
    assert(v =~= u.subrange(a as int, b as int));
    while b > a && d[b - 1] == '-'
        invariant
            a <= b <= i,
            i <= d@.len(),
            u == d@.take(i as int),
            v == u.skip(a as int),
            trim_end_dashes(v) == trim_end_dashes(u.subrange(a as int, b as int)),
        decreases b - a,
    {
        assert(u.subrange(a as int, b as int).drop_last() =~= u.subrange(a as int, b - 1));
        b = b - 1;
    }
    assert(trim_end_dashes(u.subrange(a as int, b as int)) == u.subrange(a as int, b as int));
    assert(u.subrange(a as int, b as int) =~= d@.subrange(a as int, b as int));
    (a, b)
}


/// Make a string safe for use as a Kubernetes resource name.
pub fn sanitize_name(s: &str) -> (r: String)
    ensures
        r@ == sanitize_spec(s@),
{
    let lower = to_lowercase(s);
    let cs = chars_of(lower.as_str());
    let d = dashify_chars(&cs);
    let i = kept_count(&d);
    let (a, b) = dash_trim_bounds(&d, i);
    string_of_range(&d, a, b)
}

/// Patch `patch` for container `i`: append its init container (unless one
/// of that name exists) and shadow the binary with the patched copy.
fn patch_one_container(spec: &mut PodSpec, patch: &BinaryPatch, i: usize)
    requires
        i < old(spec)@.containers.len(),
    ensures
        final(spec)@ == patch_container_spec(old(spec)@, patch@, i as int),
{
    let ghost old_view = spec@;
    assert(old_view.containers[i as int] == spec.containers@[i as int]@);
    let slug = slug_for(spec.containers[i].name.as_str(), patch.binary_path.as_str());
    let mut output_path = String::new();
    output_path.append(BINS_MOUNT_PATH);
    output_path.append("/");
    output_path.append(slug.as_str());
    let mut prefixed = String::new();
    prefixed.append("patch-");
    prefixed.append(slug.as_str());
    let init_name = sanitize_name(prefixed.as_str());
    let image = match &spec.containers[i].image {
        Some(im) => im.clone(),
        None => String::new(),
    };

    // The patch init container.
    let command = owned_strs(&[PATCHER_COMMAND]);
    let args = owned_strs(
        &[
            "--input",
            patch.binary_path.as_str(),
            "--output",
            output_path.as_str(),
            "--find",
            normalize_hex(patch.find.as_str()).as_str(),
            "--replace",
            normalize_hex(patch.replace.as_str()).as_str(),
        ],
    );
    let mut init_mounts: Vec<VolumeMount> = Vec::new();
    init_mounts.push(
        VolumeMount {
            name: TOOLS_VOLUME_NAME.to_owned(),
            mount_path: TOOLS_MOUNT_PATH.to_owned(),
            read_only: Some(true),
            sub_path: None,
        },
    );
    init_mounts.push(
        VolumeMount {
            name: BINS_VOLUME_NAME.to_owned(),
            mount_path: BINS_MOUNT_PATH.to_owned(),
            read_only: None,
            sub_path: None,
        },
    );
    let init_container = Container {
        name: init_name.clone(),
        image: Some(image),
        command: Some(command),
        args: Some(args),
        volume_mounts: Some(init_mounts),
    };
    let ghost c = old_view.containers[i as int];
    assert(init_container@ == patch_init_container(
        init_name_spec(c.name, patch@),
        unwrap_or_empty(c.image),
        patch@,
        BINS_MOUNT_PATH@ + "/"@ + slug_spec(c.name, patch@.binary_path),
    )) by {
        assert(crate::pod::strs(command) =~= seq![PATCHER_COMMAND@]);
        assert(crate::pod::mounts_view(init_mounts) =~= seq![
            MountView {
                name: TOOLS_VOLUME_NAME@,
                mount_path: TOOLS_MOUNT_PATH@,
                read_only: Some(true),
                sub_path: None,
            },
            MountView {
                name: BINS_VOLUME_NAME@,
                mount_path: BINS_MOUNT_PATH@,
                read_only: None,
                sub_path: None,
            },
        ]);
        assert(crate::pod::strs(args) =~= seq![
            "--input"@,
            patch@.binary_path,
            "--output"@,
            BINS_MOUNT_PATH@ + "/"@ + slug_spec(c.name, patch@.binary_path),
            "--find"@,
            normalize_spec(patch@.find),
            "--replace"@,
            normalize_spec(patch@.replace),
        ]);
        if c.image is None {
            assert(unwrap_or_empty(c.image) =~= Seq::<char>::empty());
        }
    }

    // Append the init container (patcher-install was already prepended).
    let mut init_containers = match spec.init_containers.take() {
        Some(v) => v,
        None => Vec::new(),
    };
    let ghost before = crate::pod::containers_view(init_containers);
    assert(before == unwrap_or_empty(old_view.init_containers)) by {
        if old_view.init_containers is None {
            assert(before =~= Seq::<ContainerView>::empty());
        }
    }
    if !has_container_named(&init_containers, init_name.as_str()) {
        let ghost ic = init_container@;
        init_containers.push(init_container);
        assert(crate::pod::containers_view(init_containers) =~= before.push(ic));
    }
    spec.init_containers = Some(init_containers);

    // Shadow the original binary with the patched one via subPath.
    if !has_mount_at(&spec.containers[i], patch.binary_path.as_str()) {
        let mut mounts = match spec.containers[i].volume_mounts.take() {
            Some(v) => v,
            None => Vec::new(),
        };
        let ghost mbefore = crate::pod::mounts_view(mounts);
        assert(mbefore == unwrap_or_empty(c.volume_mounts)) by {
            if c.volume_mounts is None {
                assert(mbefore =~= Seq::<MountView>::empty());
            }
        }
        let mount = VolumeMount {
            name: BINS_VOLUME_NAME.to_owned(),
            mount_path: patch.binary_path.clone(),
            read_only: None,
            sub_path: Some(slug),
        };
        let ghost mv = mount@;
        mounts.push(mount);
        assert(crate::pod::mounts_view(mounts) =~= mbefore.push(mv));
        spec.containers[i].volume_mounts = Some(mounts);
    }
    assert(spec@.containers =~= patch_container_spec(old_view, patch@, i as int).containers);
}

/// Patching containers one by one keeps the number of containers and their
/// names.
proof fn lemma_patch_keeps_names(spec: PodSpecView, p: PatchView, i: int)
    requires
        0 <= i < spec.containers.len(),
    ensures
        names_of(patch_container_spec(spec, p, i).containers) == names_of(spec.containers),
{
    assert(names_of(patch_container_spec(spec, p, i).containers) =~= names_of(spec.containers));
}

/// Every index that selection yields is in range.
proof fn lemma_selected_in_range(cs: Seq<Seq<char>>, name: Option<Seq<char>>, j: int)
    requires
        0 <= j,
        cs.len() <= usize::MAX,
    ensures
        forall|k: int|
            0 <= k < selected_from(cs, name, j).len() ==> j <= #[trigger] selected_from(
                cs,
                name,
                j,
            )[k] < cs.len(),
    decreases cs.len() - j,
{
    if j < cs.len() {
        lemma_selected_in_range(cs, name, j + 1);
        let here = match name {
            Some(n) => cs[j] == n,
            None => true,
        };
        let head: Seq<usize> = if here {
            seq![j as usize]
        } else {
            seq![]
        };
        let tail = selected_from(cs, name, j + 1);
        assert(selected_from(cs, name, j) == head + tail);
        assert forall|k: int| 0 <= k < selected_from(cs, name, j).len() implies j
            <= #[trigger] selected_from(cs, name, j)[k] < cs.len() by {
            if k >= head.len() {
                assert(selected_from(cs, name, j)[k] == tail[k - head.len()]);
            }
        }
    }
}

/// Apply one binary patch: validate the hex strings, then patch every
/// container it applies to.
pub fn apply_patch(spec: &mut PodSpec, patch: &BinaryPatch) -> (r: Result<(), InjectError>)
    ensures
        match apply_patch_spec(old(spec)@, patch@) {
            Ok(s2) => r is Ok && final(spec)@ == s2,
            Err(f) => r matches Err(e) && failure_is(e, f) && final(spec)@ == old(spec)@,
        },
        names_of(final(spec)@.containers) == names_of(old(spec)@.containers),
{
    let find_bytes = match decode_hex(patch.find.as_str()) {
        Ok(b) => b,
        Err(hex_error) => {
            return Err(InjectError::Hex { hex_error });
        },
    };
    let replace_bytes = match decode_hex(patch.replace.as_str()) {
        Ok(b) => b,
        Err(hex_error) => {
            return Err(InjectError::Hex { hex_error });
        },
    };
    if find_bytes.len() != replace_bytes.len() {
        return Err(
            InjectError::LengthMismatch {
                find_len: find_bytes.len(),
                replace_len: replace_bytes.len(),
                binary_path: patch.binary_path.clone(),
            },
        );
    }
    let indices = containers_for_patch(spec, &patch.container_name);
    let ghost start = spec@;
    let ghost cs0 = names_of(start.containers);
    let ncontainers = spec.containers.len();
    proof {
        lemma_selected_in_range(cs0, patch@.container_name, 0);
        assert(patch_decodes(patch@));
    }
    let mut k: usize = 0;
    assert(indices@.skip(0) =~= indices@);
    while k < indices.len()
        invariant
            0 <= k <= indices@.len(),
            indices@ == selected_from(cs0, patch@.container_name, 0),
            forall|m: int| 0 <= m < indices@.len() ==> #[trigger] indices@[m] < cs0.len(),
            names_of(spec@.containers) == cs0,
            patch_containers(spec@, patch@, indices@.skip(k as int)) == patch_containers(
                start,
                patch@,
                indices@,
            ),
        decreases indices@.len() - k,
    {
        let i = indices[k];
        let ghost before = spec@;
        assert(spec@.containers[i as int].name == cs0[i as int]);
        assert(indices@.skip(k as int)[0] == i);
        assert(indices@.skip(k as int).drop_first() =~= indices@.skip(k + 1));
        patch_one_container(spec, patch, i);
        proof {
            lemma_patch_keeps_names(before, patch@, i as int);
        }
        k = k + 1;
    }
    assert(indices@.skip(k as int) =~= Seq::<usize>::empty());
    Ok(())
}

/// The patcher image: the first one a rule names, else the default.
fn patcher_image_of(rules: &[PatchRuleSpec]) -> (r: &str)
    ensures
        r@ == first_image(rules@),
{
    let mut i: usize = 0;
    assert(rules@.skip(0) =~= rules@);
    while i < rules.len()
        invariant
            0 <= i <= rules@.len(),
            first_image(rules@) == first_image(rules@.skip(i as int)),
        decreases rules@.len() - i,
    {
        assert(rules@.skip(i as int)[0] == rules@[i as int]);
        assert(rules@.skip(i as int).drop_first() =~= rules@.skip(i + 1));
        match &rules[i].patcher_image {
            Some(image) => {
                return image.as_str();
            },
            None => {},
        }
        i = i + 1;
    }
    assert(rules@.skip(i as int) =~= Seq::<PatchRuleSpec>::empty());
    DEFAULT_PATCHER_IMAGE
}

/// Set `key` to `value` in the map entries.
fn insert_annotation(entries: &mut Vec<(String, String)>, key: &str, value: &str)
    ensures
        pairs_view(*final(entries)) == insert_entry(pairs_view(*old(entries)), key@, value@),
{
    let ghost es = pairs_view(*entries);
    let mut i: usize = 0;
    assert(es.skip(0) =~= es);
    while i < entries.len()
        invariant
            0 <= i <= entries@.len(),
            es == pairs_view(*entries),
            es == pairs_view(*old(entries)),
            forall|j: int| 0 <= j < i ==> (#[trigger] es[j]).0 != key@,
            insert_entry(es, key@, value@) == es.take(i as int) + insert_entry(es.skip(i as int), key@, value@),
        decreases entries@.len() - i,
    {
        assert(es.skip(i as int)[0] == es[i as int]);
        assert(es.skip(i as int).drop_first() =~= es.skip(i + 1));
        if same_text(entries[i].0.as_str(), key) {
            assert(es[i as int].0 == key@);
            assert(insert_entry(es.skip(i as int), key@, value@) == seq![(key@, value@)] + es.skip(i + 1));
            entries.set(i, (key.to_owned(), value.to_owned()));
            assert(pairs_view(*entries) =~= es.take(i as int) + (seq![(key@, value@)] + es.skip(i + 1)));
            return;
        }
        assert(es.take(i as int) + seq![es[i as int]] =~= es.take(i + 1));
        assert(es.take(i as int) + (seq![es[i as int]] + insert_entry(es.skip(i + 1), key@, value@))
            =~= es.take(i + 1) + insert_entry(es.skip(i + 1), key@, value@));
        i = i + 1;
    }
    assert(es.skip(i as int) =~= Seq::<(Seq<char>, Seq<char>)>::empty());
    assert(es.take(i as int) =~= es);
    entries.push((key.to_owned(), value.to_owned()));
    assert(pairs_view(*entries) =~= es + seq![(key@, value@)]);
}

/// Mutate a pod in place: add volumes, init containers, and volume mounts,
/// then mark the pod as injected.  On a failure the changes made so far stay
/// and the pod is not marked.
pub fn inject(pod: &mut Pod, rules: &[PatchRuleSpec]) -> (r: Result<(), InjectError>)
    ensures
        final(pod)@ == inject_spec(old(pod)@, rules@).0,
        match inject_spec(old(pod)@, rules@).1 {
            None => r is Ok,
            Some(f) => r matches Err(e) && failure_is(e, f),
        },
{
    let ghost p0 = pod@;
    let mut spec = match pod.spec.take() {
        Some(s) => s,
        None => {
            return Err(InjectError::NoSpec);
        },
    };
    let patcher_image = patcher_image_of(rules);

    // Ensure shared volumes exist.
    ensure_volume(&mut spec, TOOLS_VOLUME_NAME);
    ensure_volume(&mut spec, BINS_VOLUME_NAME);

    // Prepend the patcher-install init container.
    ensure_patcher_install(&mut spec, patcher_image);

    let ghost prepared = spec@;
    let ghost names = names_of(prepared.containers);
    let ghost sp0 = p0.spec.unwrap();
    assert(names == names_of(sp0.containers));
    assert(prepared == ensure_install_spec(
        ensure_volume_spec(ensure_volume_spec(sp0, TOOLS_VOLUME_NAME@), BINS_VOLUME_NAME@),
        first_image(rules@),
    ));

    // Apply each patch from each rule.
    let mut ri: usize = 0;
    assert(rules@.skip(0) =~= rules@);
    while ri < rules.len()
        invariant
            0 <= ri <= rules@.len(),
            p0 == old(pod)@,
            pod@.annotations == p0.annotations,
            p0.spec == Some(sp0),
            prepared == ensure_install_spec(
                ensure_volume_spec(ensure_volume_spec(sp0, TOOLS_VOLUME_NAME@), BINS_VOLUME_NAME@),
                first_image(rules@),
            ),
            names_of(spec@.containers) == names,
            apply_rules_spec(spec@, rules@.skip(ri as int)) == apply_rules_spec(prepared, rules@),
        decreases rules@.len() - ri,
    {
        let rule = &rules[ri];
        let ghost rest = rules@.skip(ri as int);
        let ghost ps = rule.patches@;
        let ghost at_rule = spec@;
        assert(rest[0] == *rule);
        assert(rest.drop_first() =~= rules@.skip(ri + 1));
        let mut pi: usize = 0;
        assert(ps.skip(0) =~= ps);
        while pi < rule.patches.len()
            invariant
                0 <= pi <= ps.len(),
                p0 == old(pod)@,
                pod@.annotations == p0.annotations,
                p0.spec == Some(sp0),
                prepared == ensure_install_spec(
                    ensure_volume_spec(ensure_volume_spec(sp0, TOOLS_VOLUME_NAME@), BINS_VOLUME_NAME@),
                    first_image(rules@),
                ),
                rest == rules@.skip(ri as int),
                rest.len() > 0,
                rest[0].patches@ == ps,
                apply_rules_spec(at_rule, rest) == apply_rules_spec(prepared, rules@),
                ps == rule.patches@,
                names_of(spec@.containers) == names,
                apply_patches_spec(spec@, ps.skip(pi as int)) == apply_patches_spec(at_rule, ps),
            decreases ps.len() - pi,
        {
            assert(ps.skip(pi as int)[0] == ps[pi as int]);
            assert(ps.skip(pi as int).drop_first() =~= ps.skip(pi + 1));
            match apply_patch(&mut spec, &rule.patches[pi]) {
                Ok(()) => {},
                Err(e) => {
                    pod.spec = Some(spec);
                    return Err(e);
                },
            }
            pi = pi + 1;
        }
        assert(ps.skip(pi as int) =~= Seq::<BinaryPatch>::empty());
        ri = ri + 1;
    }
    assert(rules@.skip(ri as int) =~= Seq::<PatchRuleSpec>::empty());
    pod.spec = Some(spec);

    // Mark the pod as injected.
    let mut annotations = match pod.annotations.take() {
        Some(a) => a,
        None => Vec::new(),
    };
    let ghost abefore = pairs_view(annotations);
    assert(abefore == unwrap_or_empty(p0.annotations)) by {
        if p0.annotations is None {
            assert(abefore =~= Seq::<(Seq<char>, Seq<char>)>::empty());
        }
    }
    insert_annotation(&mut annotations, ANNOTATION_INJECTED, "true");
    pod.annotations = Some(annotations);
    Ok(())
}

// ---------------------------------------------------------------------------
// Laws
// ---------------------------------------------------------------------------

/// Law: making sure of a volume twice is making sure of it once, and
/// afterwards the volume is there.
pub proof fn lemma_ensure_volume_idempotent(spec: PodSpecView, name: Seq<char>)
    ensures
        ensure_volume_spec(ensure_volume_spec(spec, name), name) == ensure_volume_spec(spec, name),
        has_volume(unwrap_or_empty(ensure_volume_spec(spec, name).volumes), name),
{
    let vs = unwrap_or_empty(spec.volumes);
    if !has_volume(vs, name) {
        let vs2 = vs.push(VolumeView { name: name, empty_dir: true });
        assert(vs2[vs.len() as int].name == name);
    }
}

/// Law: making sure of the install container twice is making sure of it
/// once, and afterwards an init container of that name is there.
pub proof fn lemma_ensure_install_idempotent(spec: PodSpecView, image: Seq<char>)
    ensures
        ensure_install_spec(ensure_install_spec(spec, image), image) == ensure_install_spec(
            spec,
            image,
        ),
        has_container(
            unwrap_or_empty(ensure_install_spec(spec, image).init_containers),
            INSTALL_CONTAINER_NAME@,
        ),
{
    let ics = unwrap_or_empty(spec.init_containers);
    if !has_container(ics, INSTALL_CONTAINER_NAME@) {
        let ics2 = seq![install_container(image)] + ics;
        assert(ics2[0].name == INSTALL_CONTAINER_NAME@);
    }
}

proof fn lemma_trim_start(cs: Seq<char>)
    ensures
        trim_start_dashes(cs).len() <= cs.len(),
        trim_start_dashes(cs) == cs.skip(cs.len() - trim_start_dashes(cs).len()),
        trim_start_dashes(cs).len() > 0 ==> trim_start_dashes(cs)[0] != '-',
    decreases cs.len(),
{
    if cs.len() > 0 && cs[0] == '-' {
        lemma_trim_start(cs.drop_first());
        let t = trim_start_dashes(cs.drop_first());
        assert(cs.drop_first().skip(cs.drop_first().len() - t.len()) =~= cs.skip(cs.len() - t.len()));
    } else {
        assert(cs.skip(0) =~= cs);
    }
}

proof fn lemma_trim_end(cs: Seq<char>)
    ensures
        trim_end_dashes(cs).len() <= cs.len(),
        trim_end_dashes(cs) == cs.take(trim_end_dashes(cs).len() as int),
        trim_end_dashes(cs).len() > 0 ==> trim_end_dashes(cs).last() != '-',
    decreases cs.len(),
{
    if cs.len() > 0 && cs.last() == '-' {
        lemma_trim_end(cs.drop_last());
        let t = trim_end_dashes(cs.drop_last());
        assert(cs.drop_last().take(t.len() as int) =~= cs.take(t.len() as int));
    } else {
        assert(cs.take(cs.len() as int) =~= cs);
    }
}

/// Law of [`sanitize_name`]: the name it makes is a valid Kubernetes
/// (DNS-1123) label or empty: at most 63 characters, each of them `a`-`z`,
/// `0`-`9` or `-` (so one byte each), and no dash at either end.
pub proof fn lemma_sanitize_safe(s: Seq<char>)
    ensures
        sanitize_spec(s).len() <= 63,
        forall|i: int| 0 <= i < sanitize_spec(s).len() ==> dns_char(#[trigger] sanitize_spec(s)[i]),
        sanitize_spec(s).len() > 0 ==> sanitize_spec(s)[0] != '-' && sanitize_spec(s).last() != '-',
{
    let d = dashify(lower_case(s));
    let t = truncate_name(d);
    assert(t == d.take(t.len() as int)) by {
        if d.len() <= 63 {
            assert(d.take(d.len() as int) =~= d);
        }
    }
    let u = trim_start_dashes(t);
    lemma_trim_start(t);
    let r = trim_end_dashes(u);
    lemma_trim_end(u);
    assert forall|i: int| 0 <= i < r.len() implies dns_char(#[trigger] r[i]) by {
        let j = i + (t.len() - u.len());
        assert(r[i] == u[i]);
        assert(u[i] == t[j]);
        assert(t[j] == d[j]);
    }
    if r.len() > 0 {
        assert(r[0] == u[0]);
    }
}

/// `b` holds everything of `a` that the injection looks for: the same
/// containers by name, the same volumes, every init container name and every
/// mount path of each container.
pub open spec fn grows(a: PodSpecView, b: PodSpecView) -> bool {
    &&& names_of(b.containers) == names_of(a.containers)
    &&& b.volumes == a.volumes
    &&& forall|n: Seq<char>|
        has_container(unwrap_or_empty(a.init_containers), n) ==> #[trigger] has_container(
            unwrap_or_empty(b.init_containers),
            n,
        )
    &&& forall|i: int, path: Seq<char>|
        0 <= i < a.containers.len() && mounts_at(a.containers[i], path) ==> #[trigger] mounts_at(
            b.containers[i],
            path,
        )
}

/// Every container that `p` applies to has its patch init container and its
/// mount already.
pub open spec fn covers(spec: PodSpecView, p: PatchView) -> bool {
    let names = names_of(spec.containers);
    forall|k: int|
        0 <= k < selected_from(names, p.container_name, 0).len() ==> {
            let i = #[trigger] selected_from(names, p.container_name, 0)[k] as int;
            &&& has_container(unwrap_or_empty(spec.init_containers), init_name_spec(names[i], p))
            &&& mounts_at(spec.containers[i], p.binary_path)
        }
}

pub open spec fn covers_all(spec: PodSpecView, ps: Seq<BinaryPatch>) -> bool {
    forall|j: int| 0 <= j < ps.len() ==> covers(spec, (#[trigger] ps[j])@)
}

pub open spec fn covers_rules(spec: PodSpecView, rules: Seq<PatchRuleSpec>) -> bool {
    forall|j: int| 0 <= j < rules.len() ==> covers_all(spec, (#[trigger] rules[j]).patches@)
}

pub open spec fn rules_decode(rules: Seq<PatchRuleSpec>) -> bool {
    forall|j: int| 0 <= j < rules.len() ==> all_decode((#[trigger] rules[j]).patches@)
}

proof fn lemma_grows_refl(a: PodSpecView)
    ensures
        grows(a, a),
{
}

proof fn lemma_grows_trans(a: PodSpecView, b: PodSpecView, c: PodSpecView)
    requires
        grows(a, b),
        grows(b, c),
    ensures
        grows(a, c),
{
    assert forall|i: int, path: Seq<char>|
        0 <= i < a.containers.len() && mounts_at(a.containers[i], path) implies #[trigger] mounts_at(
        c.containers[i],
        path,
    ) by {
        assert(names_of(b.containers).len() == names_of(a.containers).len());
        assert(mounts_at(b.containers[i], path));
    }
}

/// One patch step keeps what was there and adds its init container and mount.
proof fn lemma_patch_step_grows(spec: PodSpecView, p: PatchView, i: int)
    requires
        0 <= i < spec.containers.len(),
    ensures
        grows(spec, patch_container_spec(spec, p, i)),
        has_container(
            unwrap_or_empty(patch_container_spec(spec, p, i).init_containers),
            init_name_spec(spec.containers[i].name, p),
        ),
        mounts_at(patch_container_spec(spec, p, i).containers[i], p.binary_path),
{
    let s2 = patch_container_spec(spec, p, i);
    let c = spec.containers[i];
    let name = init_name_spec(c.name, p);
    let ics = unwrap_or_empty(spec.init_containers);
    lemma_patch_keeps_names(spec, p, i);
    assert forall|n: Seq<char>| has_container(ics, n) implies #[trigger] has_container(
        unwrap_or_empty(s2.init_containers),
        n,
    ) by {
        let w = choose|w: int| 0 <= w < ics.len() && (#[trigger] ics[w]).name == n;
        assert(unwrap_or_empty(s2.init_containers)[w] == ics[w]);
    }
    if !has_container(ics, name) {
        let ics2 = unwrap_or_empty(s2.init_containers);
        assert(ics2[ics.len() as int].name == name);
    }
    let ms = unwrap_or_empty(c.volume_mounts);
    assert forall|j: int, path: Seq<char>|
        0 <= j < spec.containers.len() && mounts_at(spec.containers[j], path) implies #[trigger] mounts_at(
        s2.containers[j],
        path,
    ) by {
        if j == i && !mounts_at(c, p.binary_path) {
            let w = choose|w: int| 0 <= w < ms.len() && (#[trigger] ms[w]).mount_path == path;
            assert(unwrap_or_empty(s2.containers[j].volume_mounts)[w] == ms[w]);
        }
    }
    if !mounts_at(c, p.binary_path) {
        let ms2 = unwrap_or_empty(s2.containers[i].volume_mounts);
        assert(ms2[ms.len() as int].mount_path == p.binary_path);
    }
}

/// A step whose init container and mount are there already changes nothing.
proof fn lemma_patch_step_noop(spec: PodSpecView, p: PatchView, i: int)
    requires
        0 <= i < spec.containers.len(),
        has_container(
            unwrap_or_empty(spec.init_containers),
            init_name_spec(spec.containers[i].name, p),
        ),
        mounts_at(spec.containers[i], p.binary_path),
    ensures
        patch_container_spec(spec, p, i) == spec,
{
    let s2 = patch_container_spec(spec, p, i);
    assert(spec.init_containers is Some);
    assert(s2.containers =~= spec.containers);
}

/// After patching the containers of `idxs`, each of them has its init
/// container and mount, and everything that was there stays.
proof fn lemma_patch_containers_grows(spec: PodSpecView, p: PatchView, idxs: Seq<usize>)
    requires
        forall|k: int| 0 <= k < idxs.len() ==> #[trigger] idxs[k] < spec.containers.len(),
    ensures
        grows(spec, patch_containers(spec, p, idxs)),
        forall|k: int|
            0 <= k < idxs.len() ==> {
                let r = patch_containers(spec, p, idxs);
                let i = #[trigger] idxs[k] as int;
                &&& has_container(
                    unwrap_or_empty(r.init_containers),
                    init_name_spec(names_of(spec.containers)[i], p),
                )
                &&& mounts_at(r.containers[i], p.binary_path)
            },
    decreases idxs.len(),
{
    if idxs.len() == 0 {
        lemma_grows_refl(spec);
    } else {
        let i = idxs[0] as int;
        let s1 = patch_container_spec(spec, p, i);
        lemma_patch_step_grows(spec, p, i);
        let rest = idxs.drop_first();
        assert(names_of(s1.containers).len() == names_of(spec.containers).len());
        assert forall|k: int| 0 <= k < rest.len() implies #[trigger] rest[k] < s1.containers.len() by {
            assert(rest[k] == idxs[k + 1]);
        }
        lemma_patch_containers_grows(s1, p, rest);
        let r = patch_containers(s1, p, rest);
        lemma_grows_trans(spec, s1, r);
        assert forall|k: int| 0 <= k < idxs.len() implies {
            let i = #[trigger] idxs[k] as int;
            &&& has_container(
                unwrap_or_empty(r.init_containers),
                init_name_spec(names_of(spec.containers)[i], p),
            )
            &&& mounts_at(r.containers[i], p.binary_path)
        } by {
            let j = idxs[k] as int;
            assert(names_of(spec.containers)[j] == spec.containers[j].name);
            if k == 0 {
                assert(has_container(
                    unwrap_or_empty(r.init_containers),
                    init_name_spec(spec.containers[j].name, p),
                ));
                assert(mounts_at(r.containers[j], p.binary_path));
            } else {
                assert(rest[k - 1] == idxs[k]);
                assert(names_of(s1.containers)[j] == names_of(spec.containers)[j]);
            }
        }
    }
}

/// Patching containers that are all covered changes nothing.
proof fn lemma_patch_containers_noop(spec: PodSpecView, p: PatchView, idxs: Seq<usize>)
    requires
        forall|k: int|
            0 <= k < idxs.len() ==> {
                let i = #[trigger] idxs[k] as int;
                &&& 0 <= i < spec.containers.len()
                &&& has_container(
                    unwrap_or_empty(spec.init_containers),
                    init_name_spec(names_of(spec.containers)[i], p),
                )
                &&& mounts_at(spec.containers[i], p.binary_path)
            },
    ensures
        patch_containers(spec, p, idxs) == spec,
    decreases idxs.len(),
{
    if idxs.len() > 0 {
        let i = idxs[0] as int;
        assert(names_of(spec.containers)[i] == spec.containers[i].name);
        lemma_patch_step_noop(spec, p, i);
        let rest = idxs.drop_first();
        assert forall|k: int| 0 <= k < rest.len() implies {
            let i = #[trigger] rest[k] as int;
            &&& 0 <= i < spec.containers.len()
            &&& has_container(
                unwrap_or_empty(spec.init_containers),
                init_name_spec(names_of(spec.containers)[i], p),
            )
            &&& mounts_at(spec.containers[i], p.binary_path)
        } by {
            assert(rest[k] == idxs[k + 1]);
        }
        lemma_patch_containers_noop(spec, p, rest);
    }
}

proof fn lemma_covers_mono(a: PodSpecView, b: PodSpecView, p: PatchView)
    requires
        grows(a, b),
        covers(a, p),
        names_of(a.containers).len() <= usize::MAX,
    ensures
        covers(b, p),
{
    let names = names_of(a.containers);
    lemma_selected_in_range(names, p.container_name, 0);
    assert forall|k: int| 0 <= k < selected_from(names, p.container_name, 0).len() implies {
        let i = #[trigger] selected_from(names, p.container_name, 0)[k] as int;
        &&& has_container(unwrap_or_empty(b.init_containers), init_name_spec(names[i], p))
        &&& mounts_at(b.containers[i], p.binary_path)
    } by {
        let i = selected_from(names, p.container_name, 0)[k] as int;
        assert(has_container(unwrap_or_empty(a.init_containers), init_name_spec(names[i], p)));
        assert(mounts_at(a.containers[i], p.binary_path));
    }
}

/// A patch that decodes is applied, keeps what was there, and covers its
/// containers.
proof fn lemma_apply_patch_covers(spec: PodSpecView, p: PatchView)
    requires
        patch_decodes(p),
        spec.containers.len() <= usize::MAX,
    ensures
        apply_patch_spec(spec, p) is Ok,
        grows(spec, apply_patch_spec(spec, p)->Ok_0),
        covers(apply_patch_spec(spec, p)->Ok_0, p),
{
    let names = names_of(spec.containers);
    let idxs = selected(spec.containers, p.container_name);
    lemma_selected_in_range(names, p.container_name, 0);
    lemma_patch_containers_grows(spec, p, idxs);
    let r = patch_containers(spec, p, idxs);
    assert(names_of(r.containers) == names);
}

/// A patch whose containers are covered changes nothing.
proof fn lemma_apply_patch_noop(spec: PodSpecView, p: PatchView)
    requires
        patch_decodes(p),
        covers(spec, p),
        spec.containers.len() <= usize::MAX,
    ensures
        apply_patch_spec(spec, p) == Ok::<PodSpecView, InjectFailure>(spec),
{
    let names = names_of(spec.containers);
    let idxs = selected(spec.containers, p.container_name);
    lemma_selected_in_range(names, p.container_name, 0);
    lemma_patch_containers_noop(spec, p, idxs);
}

/// Law of [`apply_patch`]: applying a patch again to the spec that it made
/// succeeds and changes nothing (no second init container, no second mount).
pub proof fn lemma_apply_patch_idempotent(spec: PodSpecView, p: PatchView)
    requires
        spec.containers.len() <= usize::MAX,
        apply_patch_spec(spec, p) is Ok,
    ensures
        apply_patch_spec(apply_patch_spec(spec, p)->Ok_0, p) == apply_patch_spec(spec, p),
{
    assert(patch_decodes(p));
    lemma_apply_patch_covers(spec, p);
    let s1 = apply_patch_spec(spec, p)->Ok_0;
    lemma_selected_in_range(names_of(spec.containers), p.container_name, 0);
    lemma_patch_containers_grows(spec, p, selected(spec.containers, p.container_name));
    assert(names_of(s1.containers).len() == names_of(spec.containers).len());
    lemma_apply_patch_noop(s1, p);
}

proof fn lemma_apply_patches_grows(spec: PodSpecView, ps: Seq<BinaryPatch>)
    requires
        apply_patches_spec(spec, ps).1 is None,
        spec.containers.len() <= usize::MAX,
    ensures
        grows(spec, apply_patches_spec(spec, ps).0),
        covers_all(apply_patches_spec(spec, ps).0, ps),
        all_decode(ps),
    decreases ps.len(),
{
    if ps.len() == 0 {
        lemma_grows_refl(spec);
    } else {
        let p = ps[0]@;
        match apply_patch_spec(spec, p) {
            Err(f) => {},
            Ok(s1) => {
                assert(patch_decodes(p));
                lemma_apply_patch_covers(spec, p);
                assert(names_of(s1.containers).len() == names_of(spec.containers).len());
                let rest = ps.drop_first();
                lemma_apply_patches_grows(s1, rest);
                let r = apply_patches_spec(s1, rest).0;
                lemma_grows_trans(spec, s1, r);
                lemma_covers_mono(s1, r, p);
                assert forall|j: int| 0 <= j < ps.len() implies covers(r, (#[trigger] ps[j])@) by {
                    if j > 0 {
                        assert(ps[j] == rest[j - 1]);
                    }
                }
                assert forall|j: int| 0 <= j < ps.len() implies patch_decodes((#[trigger] ps[j])@) by {
                    if j > 0 {
                        assert(ps[j] == rest[j - 1]);
                    }
                }
            },
        }
    }
}

proof fn lemma_apply_patches_noop(spec: PodSpecView, ps: Seq<BinaryPatch>)
    requires
        covers_all(spec, ps),
        all_decode(ps),
        spec.containers.len() <= usize::MAX,
    ensures
        apply_patches_spec(spec, ps) == (spec, None::<InjectFailure>),
    decreases ps.len(),
{
    if ps.len() > 0 {
        assert(covers(spec, ps[0]@));
        assert(patch_decodes(ps[0]@));
        lemma_apply_patch_noop(spec, ps[0]@);
        let rest = ps.drop_first();
        assert forall|j: int| 0 <= j < rest.len() implies covers(spec, (#[trigger] rest[j])@) by {
            assert(rest[j] == ps[j + 1]);
        }
        assert forall|j: int| 0 <= j < rest.len() implies patch_decodes((#[trigger] rest[j])@) by {
            assert(rest[j] == ps[j + 1]);
        }
        lemma_apply_patches_noop(spec, rest);
    }
}

proof fn lemma_apply_rules_grows(spec: PodSpecView, rules: Seq<PatchRuleSpec>)
    requires
        apply_rules_spec(spec, rules).1 is None,
        spec.containers.len() <= usize::MAX,
    ensures
        grows(spec, apply_rules_spec(spec, rules).0),
        covers_rules(apply_rules_spec(spec, rules).0, rules),
        rules_decode(rules),
    decreases rules.len(),
{
    if rules.len() == 0 {
        lemma_grows_refl(spec);
    } else {
        let ps = rules[0].patches@;
        let (s1, f) = apply_patches_spec(spec, ps);
        assert(f is None);
        lemma_apply_patches_grows(spec, ps);
        assert(names_of(s1.containers).len() == names_of(spec.containers).len());
        let rest = rules.drop_first();
        lemma_apply_rules_grows(s1, rest);
        let r = apply_rules_spec(s1, rest).0;
        lemma_grows_trans(spec, s1, r);
        assert forall|j: int| 0 <= j < ps.len() implies covers(r, (#[trigger] ps[j])@) by {
            assert(covers(s1, ps[j]@));
            lemma_covers_mono(s1, r, ps[j]@);
        }
        assert forall|j: int| 0 <= j < rules.len() implies covers_all(r, (#[trigger] rules[j]).patches@) by {
            if j > 0 {
                assert(rules[j] == rest[j - 1]);
            }
        }
        assert forall|j: int| 0 <= j < rules.len() implies all_decode((#[trigger] rules[j]).patches@) by {
            if j > 0 {
                assert(rules[j] == rest[j - 1]);
            }
        }
    }
}

proof fn lemma_apply_rules_noop(spec: PodSpecView, rules: Seq<PatchRuleSpec>)
    requires
        covers_rules(spec, rules),
        rules_decode(rules),
        spec.containers.len() <= usize::MAX,
    ensures
        apply_rules_spec(spec, rules) == (spec, None::<InjectFailure>),
    decreases rules.len(),
{
    if rules.len() > 0 {
        assert(covers_all(spec, rules[0].patches@));
        assert(all_decode(rules[0].patches@));
        lemma_apply_patches_noop(spec, rules[0].patches@);
        let rest = rules.drop_first();
        assert forall|j: int| 0 <= j < rest.len() implies covers_all(spec, (#[trigger] rest[j]).patches@) by {
            assert(rest[j] == rules[j + 1]);
        }
        assert forall|j: int| 0 <= j < rest.len() implies all_decode((#[trigger] rest[j]).patches@) by {
            assert(rest[j] == rules[j + 1]);
        }
        lemma_apply_rules_noop(spec, rest);
    }
}

proof fn lemma_insert_entry_idempotent(es: Seq<(Seq<char>, Seq<char>)>, k: Seq<char>, v: Seq<char>)
    ensures
        insert_entry(insert_entry(es, k, v), k, v) == insert_entry(es, k, v),
    decreases es.len(),
{
    if es.len() == 0 {
        assert(insert_entry(seq![(k, v)], k, v) =~= seq![(k, v)] + seq![(k, v)].drop_first());
    } else if es[0].0 == k {
        let r = seq![(k, v)] + es.drop_first();
        assert(r.drop_first() =~= es.drop_first());
    } else {
        lemma_insert_entry_idempotent(es.drop_first(), k, v);
        let r = insert_entry(es, k, v);
        assert(r.drop_first() =~= insert_entry(es.drop_first(), k, v));
    }
}

/// Law: injecting a pod that the injection went through on changes nothing
/// more (no volume, init container, mount or annotation is added twice).
pub proof fn lemma_inject_idempotent(pod: PodView, rules: Seq<PatchRuleSpec>)
    requires
        inject_spec(pod, rules).1 is None,
        pod.spec matches Some(sp) && sp.containers.len() <= usize::MAX,
    ensures
        inject_spec(inject_spec(pod, rules).0, rules) == inject_spec(pod, rules),
{
    let sp = pod.spec.unwrap();
    let img = first_image(rules);
    let v1 = ensure_volume_spec(sp, TOOLS_VOLUME_NAME@);
    let v2 = ensure_volume_spec(v1, BINS_VOLUME_NAME@);
    let prepared = ensure_install_spec(v2, img);
    lemma_ensure_volume_idempotent(sp, TOOLS_VOLUME_NAME@);
    lemma_ensure_volume_idempotent(v1, BINS_VOLUME_NAME@);
    lemma_ensure_install_idempotent(v2, img);
    let (s1, f) = apply_rules_spec(prepared, rules);
    lemma_apply_rules_grows(prepared, rules);
    // The prepared spec's volumes and install container are still there.
    let tools = TOOLS_VOLUME_NAME@;
    let bins = BINS_VOLUME_NAME@;
    let vs1 = unwrap_or_empty(v1.volumes);
    let vs2 = unwrap_or_empty(v2.volumes);
    assert(has_volume(vs2, tools)) by {
        let w = choose|w: int| 0 <= w < vs1.len() && (#[trigger] vs1[w]).name == tools;
        assert(vs2[w] == vs1[w]);
    }
    assert(has_volume(vs2, bins));
    assert(s1.volumes == prepared.volumes);
    assert(has_container(unwrap_or_empty(s1.init_containers), INSTALL_CONTAINER_NAME@));
    assert(ensure_volume_spec(s1, tools) == s1);
    assert(ensure_volume_spec(s1, bins) == s1);
    assert(ensure_install_spec(s1, img) == s1) by {
        assert(s1.init_containers is Some);
    }
    lemma_apply_rules_noop(s1, rules);
    let a1 = insert_entry(unwrap_or_empty(pod.annotations), ANNOTATION_INJECTED@, "true"@);
    lemma_insert_entry_idempotent(unwrap_or_empty(pod.annotations), ANNOTATION_INJECTED@, "true"@);
}

proof fn lemma_apply_patches_keeps(spec: PodSpecView, ps: Seq<BinaryPatch>)
    requires
        spec.containers.len() <= usize::MAX,
    ensures
        grows(spec, apply_patches_spec(spec, ps).0),
    decreases ps.len(),
{
    if ps.len() == 0 {
        lemma_grows_refl(spec);
    } else {
        match apply_patch_spec(spec, ps[0]@) {
            Err(f) => {
                lemma_grows_refl(spec);
            },
            Ok(s1) => {
                assert(patch_decodes(ps[0]@));
                lemma_apply_patch_covers(spec, ps[0]@);
                assert(names_of(s1.containers).len() == names_of(spec.containers).len());
                lemma_apply_patches_keeps(s1, ps.drop_first());
                lemma_grows_trans(spec, s1, apply_patches_spec(s1, ps.drop_first()).0);
            },
        }
    }
}

proof fn lemma_apply_rules_keeps(spec: PodSpecView, rules: Seq<PatchRuleSpec>)
    requires
        spec.containers.len() <= usize::MAX,
    ensures
        grows(spec, apply_rules_spec(spec, rules).0),
    decreases rules.len(),
{
    if rules.len() == 0 {
        lemma_grows_refl(spec);
    } else {
        let (s1, f) = apply_patches_spec(spec, rules[0].patches@);
        lemma_apply_patches_keeps(spec, rules[0].patches@);
        if f is None {
            assert(names_of(s1.containers).len() == names_of(spec.containers).len());
            lemma_apply_rules_keeps(s1, rules.drop_first());
            lemma_grows_trans(spec, s1, apply_rules_spec(s1, rules.drop_first()).0);
        }
    }
}

/// Law: the injection only adds.  Whether or not it fails, the containers
/// keep their names and order, every volume, init container and mount that
/// was there still is, and the two shared volumes and the install container
/// are there.
pub proof fn lemma_inject_keeps(pod: PodView, rules: Seq<PatchRuleSpec>)
    requires
        pod.spec matches Some(sp) && sp.containers.len() <= usize::MAX,
    ensures
        ({
            let sp = pod.spec.unwrap();
            let new = inject_spec(pod, rules).0.spec.unwrap();
            &&& inject_spec(pod, rules).0.spec is Some
            &&& names_of(new.containers) == names_of(sp.containers)
            &&& forall|n: Seq<char>|
                has_volume(unwrap_or_empty(sp.volumes), n) ==> #[trigger] has_volume(
                    unwrap_or_empty(new.volumes),
                    n,
                )
            &&& forall|n: Seq<char>|
                has_container(unwrap_or_empty(sp.init_containers), n) ==> #[trigger] has_container(
                    unwrap_or_empty(new.init_containers),
                    n,
                )
            &&& forall|i: int, path: Seq<char>|
                0 <= i < sp.containers.len() && mounts_at(sp.containers[i], path) ==> #[trigger] mounts_at(
                    new.containers[i],
                    path,
                )
            &&& has_volume(unwrap_or_empty(new.volumes), TOOLS_VOLUME_NAME@)
            &&& has_volume(unwrap_or_empty(new.volumes), BINS_VOLUME_NAME@)
            &&& has_container(unwrap_or_empty(new.init_containers), INSTALL_CONTAINER_NAME@)
        }),
{
    let sp = pod.spec.unwrap();
    let img = first_image(rules);
    let v1 = ensure_volume_spec(sp, TOOLS_VOLUME_NAME@);
    let v2 = ensure_volume_spec(v1, BINS_VOLUME_NAME@);
    let prepared = ensure_install_spec(v2, img);
    lemma_ensure_volume_idempotent(sp, TOOLS_VOLUME_NAME@);
    lemma_ensure_volume_idempotent(v1, BINS_VOLUME_NAME@);
    lemma_ensure_install_idempotent(v2, img);
    lemma_apply_rules_keeps(prepared, rules);
    let new = apply_rules_spec(prepared, rules).0;
    let vs0 = unwrap_or_empty(sp.volumes);
    let vs1 = unwrap_or_empty(v1.volumes);
    let vs2 = unwrap_or_empty(v2.volumes);
    assert forall|n: Seq<char>| has_volume(vs0, n) implies has_volume(vs2, n) by {
        let w = choose|w: int| 0 <= w < vs0.len() && (#[trigger] vs0[w]).name == n;
        assert(vs1[w] == vs0[w]);
        assert(vs2[w] == vs1[w]);
    }
    assert(has_volume(vs2, TOOLS_VOLUME_NAME@)) by {
        let w = choose|w: int| 0 <= w < vs1.len() && (#[trigger] vs1[w]).name == TOOLS_VOLUME_NAME@;
        assert(vs2[w] == vs1[w]);
    }
    let ics0 = unwrap_or_empty(sp.init_containers);
    let ics = unwrap_or_empty(prepared.init_containers);
    assert forall|n: Seq<char>| has_container(ics0, n) implies has_container(ics, n) by {
        let w = choose|w: int| 0 <= w < ics0.len() && (#[trigger] ics0[w]).name == n;
        if !has_container(ics0, INSTALL_CONTAINER_NAME@) {
            assert(ics[w + 1] == ics0[w]);
        }
    }
    assert(names_of(prepared.containers) == names_of(sp.containers));
    assert(prepared.containers == sp.containers);
}

// ---------------------------------------------------------------------------
// What the added init containers are
// ---------------------------------------------------------------------------

/// `c` is the patch init container made for container `i` of `cs`, which
/// `p` applies to: it bears that container's init name, runs in that
/// container's image (empty if it has none), and mounts the tools volume at
/// the tools path first.
pub open spec fn init_made_for(cs: Seq<ContainerView>, p: PatchView, c: ContainerView, i: int) -> bool {
    &&& 0 <= i < cs.len()
    &&& p.container_name is None || p.container_name == Some(cs[i].name)
    &&& c.name == init_name_spec(cs[i].name, p)
    &&& c.image == Some(
        match cs[i].image {
            Some(im) => im,
            None => Seq::<char>::empty(),
        },
    )
    &&& c.volume_mounts matches Some(ms) && ms.len() > 0 && ms[0].name == TOOLS_VOLUME_NAME@
        && ms[0].mount_path == TOOLS_MOUNT_PATH@
}

/// `c` is the patch init container made for one of the containers `cs`
/// that `p` applies to.
pub open spec fn patch_init_for(cs: Seq<ContainerView>, p: PatchView, c: ContainerView) -> bool {
    exists|i: int| #[trigger] init_made_for(cs, p, c, i)
}

/// The index `k` of a selection names a container that the name selects.
proof fn lemma_selected_match(cs: Seq<Seq<char>>, name: Option<Seq<char>>, j: int)
    requires
        0 <= j,
        cs.len() <= usize::MAX,
    ensures
        forall|k: int|
            0 <= k < selected_from(cs, name, j).len() ==> (name is None || name == Some(
                cs[#[trigger] selected_from(cs, name, j)[k] as int],
            )),
    decreases cs.len() - j,
{
    if j < cs.len() {
        lemma_selected_match(cs, name, j + 1);
        let here = match name {
            Some(n) => cs[j] == n,
            None => true,
        };
        let head: Seq<usize> = if here {
            seq![j as usize]
        } else {
            seq![]
        };
        let tail = selected_from(cs, name, j + 1);
        assert(selected_from(cs, name, j) == head + tail);
        assert forall|k: int| 0 <= k < selected_from(cs, name, j).len() implies (name is None
            || name == Some(cs[#[trigger] selected_from(cs, name, j)[k] as int])) by {
            if k >= head.len() {
                assert(selected_from(cs, name, j)[k] == tail[k - head.len()]);
            } else {
                assert(selected_from(cs, name, j)[k] == j as usize);
            }
        }
    }
}

/// Patching the containers `idxs` keeps every container's name and image,
/// keeps the init containers there before, and appends only patch init
/// containers made for selected containers.
proof fn lemma_patch_containers_images(spec: PodSpecView, p: PatchView, idxs: Seq<usize>)
    requires
        forall|k: int| 0 <= k < idxs.len() ==> #[trigger] idxs[k] < spec.containers.len(),
        forall|k: int|
            0 <= k < idxs.len() ==> (p.container_name is None || p.container_name == Some(
                spec.containers[#[trigger] idxs[k] as int].name,
            )),
    ensures
        ({
            let r = patch_containers(spec, p, idxs);
            let before = unwrap_or_empty(spec.init_containers);
            let after = unwrap_or_empty(r.init_containers);
            &&& r.containers.len() == spec.containers.len()
            &&& forall|i: int|
                0 <= i < spec.containers.len() ==> (#[trigger] r.containers[i]).name
                    == spec.containers[i].name && r.containers[i].image == spec.containers[i].image
            &&& before.len() <= after.len()
            &&& forall|m: int| 0 <= m < before.len() ==> #[trigger] after[m] == before[m]
            &&& forall|m: int|
                before.len() <= m < after.len() ==> patch_init_for(spec.containers, p, #[trigger] after[m])
        }),
    decreases idxs.len(),
{
    if idxs.len() > 0 {
        let i0 = idxs[0] as int;
        let c = spec.containers[i0];
        let s1 = patch_container_spec(spec, p, i0);
        let rest = idxs.drop_first();
        assert forall|k: int| 0 <= k < rest.len() implies #[trigger] rest[k] < s1.containers.len() by {
            assert(rest[k] == idxs[k + 1]);
        }
        assert forall|i: int| 0 <= i < spec.containers.len() implies (#[trigger] s1.containers[i]).name
            == spec.containers[i].name && s1.containers[i].image == spec.containers[i].image by {}
        assert forall|k: int| 0 <= k < rest.len() implies (p.container_name is None
            || p.container_name == Some(s1.containers[#[trigger] rest[k] as int].name)) by {
            assert(rest[k] == idxs[k + 1]);
        }
        lemma_patch_containers_images(s1, p, rest);
        let r = patch_containers(s1, p, rest);
        let before = unwrap_or_empty(spec.init_containers);
        let mid = unwrap_or_empty(s1.init_containers);
        let after = unwrap_or_empty(r.init_containers);
        let init = patch_init_container(
            init_name_spec(c.name, p),
            unwrap_or_empty(c.image),
            p,
            BINS_MOUNT_PATH@ + "/"@ + slug_spec(c.name, p.binary_path),
        );
        assert(patch_init_for(spec.containers, p, init)) by {
            if c.image is None {
                assert(unwrap_or_empty(c.image) =~= Seq::<char>::empty());
            }
            assert(spec.containers[i0] == c);
            assert(init_made_for(spec.containers, p, init, i0));
        }
        assert forall|m: int| before.len() <= m < after.len() implies patch_init_for(
            spec.containers,
            p,
            #[trigger] after[m],
        ) by {
            if m < mid.len() {
                assert(mid[m] == init);
            } else {
                assert(patch_init_for(s1.containers, p, after[m]));
                let i = choose|i: int| #[trigger] init_made_for(s1.containers, p, after[m], i);
                assert(spec.containers[i].name == s1.containers[i].name);
                assert(init_made_for(spec.containers, p, after[m], i));
            }
        }
        assert forall|m: int| 0 <= m < before.len() implies #[trigger] after[m] == before[m] by {
            assert(mid[m] == before[m]);
        }
    }
}

/// Law of [`apply_patch`]: it keeps the init containers that were there, and
/// each init container it adds is the patch init container of a container
/// that the patch applies to, running in that container's own image (empty
/// if it has none) with the tools volume at `/patch-tools`.
pub proof fn lemma_apply_patch_init_images(spec: PodSpecView, p: PatchView)
    requires
        spec.containers.len() <= usize::MAX,
        apply_patch_spec(spec, p) is Ok,
    ensures
        ({
            let r = apply_patch_spec(spec, p)->Ok_0;
            let before = unwrap_or_empty(spec.init_containers);
            let after = unwrap_or_empty(r.init_containers);
            &&& before.len() <= after.len()
            &&& forall|m: int| 0 <= m < before.len() ==> #[trigger] after[m] == before[m]
            &&& forall|m: int|
                before.len() <= m < after.len() ==> patch_init_for(spec.containers, p, #[trigger] after[m])
        }),
{
    let names = names_of(spec.containers);
    let idxs = selected(spec.containers, p.container_name);
    lemma_selected_in_range(names, p.container_name, 0);
    lemma_selected_match(names, p.container_name, 0);
    assert forall|k: int| 0 <= k < idxs.len() implies (p.container_name is None || p.container_name
        == Some(spec.containers[#[trigger] idxs[k] as int].name)) by {
        assert(names[idxs[k] as int] == spec.containers[idxs[k] as int].name);
    }
    lemma_patch_containers_images(spec, p, idxs);
}

/// Law of [`apply_patch`], one container at a time: the patch init container
/// made for container `i` (when none of its name is there yet) is appended
/// last and runs in container `i`'s own image, empty if it has none.
pub proof fn lemma_patch_step_image(spec: PodSpecView, p: PatchView, i: int)
    requires
        0 <= i < spec.containers.len(),
        !has_container(unwrap_or_empty(spec.init_containers), init_name_spec(spec.containers[i].name, p)),
    ensures
        ({
            let before = unwrap_or_empty(spec.init_containers);
            let after = unwrap_or_empty(patch_container_spec(spec, p, i).init_containers);
            &&& after.len() == before.len() + 1
            &&& after.last().name == init_name_spec(spec.containers[i].name, p)
            &&& after.last().image == Some(
                match spec.containers[i].image {
                    Some(im) => im,
                    None => Seq::<char>::empty(),
                },
            )
        }),
{
    if spec.containers[i].image is None {
        assert(unwrap_or_empty(spec.containers[i].image) =~= Seq::<char>::empty());
    }
}

/// The first image that a rule names, by index: `k` names one and no rule
/// before it does.
proof fn lemma_first_image_at(rules: Seq<PatchRuleSpec>, k: int)
    requires
        0 <= k < rules.len(),
        rules[k].patcher_image is Some,
        forall|j: int| 0 <= j < k ==> (#[trigger] rules[j]).patcher_image is None,
    ensures
        first_image(rules) == rules[k].patcher_image->0@,
    decreases k,
{
    if k > 0 {
        let rest = rules.drop_first();
        assert(rules[0].patcher_image is None);
        assert forall|j: int| 0 <= j < k - 1 implies (#[trigger] rest[j]).patcher_image is None by {
            assert(rest[j] == rules[j + 1]);
        }
        assert(rest[k - 1] == rules[k]);
        lemma_first_image_at(rest, k - 1);
    }
}

proof fn lemma_first_image_default(rules: Seq<PatchRuleSpec>)
    requires
        forall|j: int| 0 <= j < rules.len() ==> (#[trigger] rules[j]).patcher_image is None,
    ensures
        first_image(rules) == DEFAULT_PATCHER_IMAGE@,
    decreases rules.len(),
{
    if rules.len() > 0 {
        let rest = rules.drop_first();
        assert(rules[0].patcher_image is None);
        assert forall|j: int| 0 <= j < rest.len() implies (#[trigger] rest[j]).patcher_image is None by {
            assert(rest[j] == rules[j + 1]);
        }
        lemma_first_image_default(rest);
    }
}

/// Whether the init containers of `b` start with those of `a`.
pub open spec fn init_prefix(a: PodSpecView, b: PodSpecView) -> bool {
    let x = unwrap_or_empty(a.init_containers);
    let y = unwrap_or_empty(b.init_containers);
    x.len() <= y.len() && forall|m: int| 0 <= m < x.len() ==> #[trigger] y[m] == x[m]
}

proof fn lemma_apply_patches_prefix(spec: PodSpecView, ps: Seq<BinaryPatch>)
    requires
        spec.containers.len() <= usize::MAX,
    ensures
        init_prefix(spec, apply_patches_spec(spec, ps).0),
        apply_patches_spec(spec, ps).0.containers.len() == spec.containers.len(),
    decreases ps.len(),
{
    if ps.len() > 0 {
        match apply_patch_spec(spec, ps[0]@) {
            Err(f) => {},
            Ok(s1) => {
                lemma_apply_patch_init_images(spec, ps[0]@);
                let names = names_of(spec.containers);
                let idxs = selected(spec.containers, ps[0]@.container_name);
                lemma_selected_in_range(names, ps[0]@.container_name, 0);
                lemma_selected_match(names, ps[0]@.container_name, 0);
                assert forall|k: int| 0 <= k < idxs.len() implies (ps[0]@.container_name is None
                    || ps[0]@.container_name == Some(spec.containers[#[trigger] idxs[k] as int].name)) by {
                    assert(names[idxs[k] as int] == spec.containers[idxs[k] as int].name);
                }
                lemma_patch_containers_images(spec, ps[0]@, idxs);
                lemma_apply_patches_prefix(s1, ps.drop_first());
                let r = apply_patches_spec(s1, ps.drop_first()).0;
                let x = unwrap_or_empty(spec.init_containers);
                let y = unwrap_or_empty(s1.init_containers);
                let z = unwrap_or_empty(r.init_containers);
                assert forall|m: int| 0 <= m < x.len() implies #[trigger] z[m] == x[m] by {
                    assert(y[m] == x[m]);
                }
            },
        }
    }
}

proof fn lemma_apply_rules_prefix(spec: PodSpecView, rules: Seq<PatchRuleSpec>)
    requires
        spec.containers.len() <= usize::MAX,
    ensures
        init_prefix(spec, apply_rules_spec(spec, rules).0),
    decreases rules.len(),
{
    if rules.len() > 0 {
        let (s1, f) = apply_patches_spec(spec, rules[0].patches@);
        lemma_apply_patches_prefix(spec, rules[0].patches@);
        if f is None {
            lemma_apply_rules_prefix(s1, rules.drop_first());
            let r = apply_rules_spec(s1, rules.drop_first()).0;
            let x = unwrap_or_empty(spec.init_containers);
            let y = unwrap_or_empty(s1.init_containers);
            let z = unwrap_or_empty(r.init_containers);
            assert forall|m: int| 0 <= m < x.len() implies #[trigger] z[m] == x[m] by {
                assert(y[m] == x[m]);
            }
        }
    }
}

/// Law of [`inject`]: on a pod without the install container, the injection
/// (whether or not it fails later) puts it first among the init containers.
/// It runs the image of the first rule that names a patcher image, or the
/// default image when no rule names one, and mounts only the tools volume,
/// at `/patch-tools`: the volume and path where every patch init container
/// finds the patcher.  The tools volume is among the pod's volumes.
pub proof fn lemma_inject_install_container(pod: PodView, rules: Seq<PatchRuleSpec>)
    requires
        pod.spec matches Some(sp) && sp.containers.len() <= usize::MAX && !has_container(
            unwrap_or_empty(sp.init_containers),
            INSTALL_CONTAINER_NAME@,
        ),
    ensures
        ({
            let new = inject_spec(pod, rules).0.spec.unwrap();
            let ics = unwrap_or_empty(new.init_containers);
            &&& inject_spec(pod, rules).0.spec is Some
            &&& ics.len() > 0
            &&& ics[0].name == INSTALL_CONTAINER_NAME@
            &&& (forall|j: int| 0 <= j < rules.len() ==> (#[trigger] rules[j]).patcher_image is None)
                ==> ics[0].image == Some(DEFAULT_PATCHER_IMAGE@)
            &&& forall|k: int|
                0 <= k < rules.len() && (#[trigger] rules[k]).patcher_image is Some && (forall|j: int|
                    0 <= j < k ==> (#[trigger] rules[j]).patcher_image is None) ==> ics[0].image == Some(
                    rules[k].patcher_image->0@,
                )
            &&& ics[0].command == Some(seq!["/bin/sh"@, "-c"@, INSTALL_SCRIPT@])
            &&& ics[0].volume_mounts == Some(
                seq![
                    MountView {
                        name: TOOLS_VOLUME_NAME@,
                        mount_path: TOOLS_MOUNT_PATH@,
                        read_only: None,
                        sub_path: None,
                    },
                ],
            )
            &&& has_volume(unwrap_or_empty(new.volumes), TOOLS_VOLUME_NAME@)
        }),
{
    let sp = pod.spec.unwrap();
    let img = first_image(rules);
    let v1 = ensure_volume_spec(sp, TOOLS_VOLUME_NAME@);
    let v2 = ensure_volume_spec(v1, BINS_VOLUME_NAME@);
    let prepared = ensure_install_spec(v2, img);
    lemma_inject_keeps(pod, rules);
    lemma_apply_rules_prefix(prepared, rules);
    let pics = unwrap_or_empty(prepared.init_containers);
    assert(pics[0] == install_container(img));
    let new = apply_rules_spec(prepared, rules).0;
    assert(unwrap_or_empty(new.init_containers)[0] == pics[0]);
    if forall|j: int| 0 <= j < rules.len() ==> (#[trigger] rules[j]).patcher_image is None {
        lemma_first_image_default(rules);
    }
    assert forall|k: int|
        0 <= k < rules.len() && (#[trigger] rules[k]).patcher_image is Some && (forall|j: int|
            0 <= j < k ==> (#[trigger] rules[j]).patcher_image is None) implies unwrap_or_empty(
        new.init_containers,
    )[0].image == Some(rules[k].patcher_image->0@) by {
        lemma_first_image_at(rules, k);
    }
}

/// Every index from `j` on whose name the selection asks for is selected.
proof fn lemma_selected_complete(cs: Seq<Seq<char>>, name: Option<Seq<char>>, j: int, i: int)
    requires
        0 <= j <= i < cs.len(),
        cs.len() <= usize::MAX,
        name is None || name == Some(cs[i]),
    ensures
        selected_from(cs, name, j).contains(i as usize),
    decreases i - j,
{
    let here = match name {
        Some(n) => cs[j] == n,
        None => true,
    };
    let head: Seq<usize> = if here {
        seq![j as usize]
    } else {
        seq![]
    };
    let tail = selected_from(cs, name, j + 1);
    assert(selected_from(cs, name, j) == head + tail);
    if i == j {
        assert((head + tail)[0] == i as usize);
    } else {
        lemma_selected_complete(cs, name, j + 1, i);
        let k = choose|k: int| 0 <= k < tail.len() && tail[k] == i as usize;
        assert((head + tail)[head.len() + k] == i as usize);
    }
}

/// Law of [`apply_patch`]: afterwards every container that the patch
/// applies to (every container when it names none, else those of that name)
/// has its patch init container and a mount at the binary's path.
pub proof fn lemma_apply_patch_reaches_all(spec: PodSpecView, p: PatchView, i: int)
    requires
        spec.containers.len() <= usize::MAX,
        apply_patch_spec(spec, p) is Ok,
        0 <= i < spec.containers.len(),
        p.container_name is None || p.container_name == Some(spec.containers[i].name),
    ensures
        has_container(
            unwrap_or_empty(apply_patch_spec(spec, p)->Ok_0.init_containers),
            init_name_spec(spec.containers[i].name, p),
        ),
        mounts_at(apply_patch_spec(spec, p)->Ok_0.containers[i], p.binary_path),
{
    assert(patch_decodes(p));
    lemma_apply_patch_covers(spec, p);
    let names = names_of(spec.containers);
    assert(names[i] == spec.containers[i].name);
    lemma_selected_complete(names, p.container_name, 0, i);
    let sel = selected_from(names, p.container_name, 0);
    let k = choose|k: int| 0 <= k < sel.len() && sel[k] == i as usize;
    assert(sel[k] as int == i);
}

/// Law of [`apply_patch`], one container at a time: when container `i` has
/// neither its patch init container nor a mount at the binary's path, the
/// init container reads that path and writes into the bins volume under
/// the very name (`subPath`) that the container then mounts from that volume
/// over the binary's path, and it is given the pattern and the replacement
/// in that order.
pub proof fn lemma_patch_step_links(spec: PodSpecView, p: PatchView, i: int)
    requires
        0 <= i < spec.containers.len(),
        !has_container(unwrap_or_empty(spec.init_containers), init_name_spec(spec.containers[i].name, p)),
        !mounts_at(spec.containers[i], p.binary_path),
    ensures
        ({
            let r = patch_container_spec(spec, p, i);
            let init = unwrap_or_empty(r.init_containers).last();
            let m = unwrap_or_empty(r.containers[i].volume_mounts).last();
            &&& r.containers[i].volume_mounts is Some
            &&& m.name == BINS_VOLUME_NAME@
            &&& m.mount_path == p.binary_path
            &&& m.sub_path is Some
            &&& init.command == Some(seq![PATCHER_COMMAND@])
            &&& init.args matches Some(a) && a.len() == 8 && a[0] == "--input"@ && a[1] == p.binary_path
                && a[2] == "--output"@ && a[3] == BINS_MOUNT_PATH@ + "/"@ + m.sub_path->0
                && a[4] == "--find"@ && a[5] == normalize_spec(p.find) && a[6] == "--replace"@
                && a[7] == normalize_spec(p.replace)
            &&& init.volume_mounts matches Some(ms) && ms.len() == 2 && ms[1].name == BINS_VOLUME_NAME@
                && ms[1].mount_path == BINS_MOUNT_PATH@
        }),
{
    let r = patch_container_spec(spec, p, i);
    assert(r.containers[i].volume_mounts is Some);
}

/// Law of [`ensure_volume`]: afterwards the volume is there; the volumes
/// that were there stay in place, and a missing one is added last as an
/// `emptyDir` volume.
pub proof fn lemma_ensure_volume_adds(spec: PodSpecView, name: Seq<char>)
    ensures
        ({
            let before = unwrap_or_empty(spec.volumes);
            let after = unwrap_or_empty(ensure_volume_spec(spec, name).volumes);
            &&& has_volume(after, name)
            &&& before.len() <= after.len() <= before.len() + 1
            &&& forall|m: int| 0 <= m < before.len() ==> #[trigger] after[m] == before[m]
            &&& after.len() == before.len() + 1 ==> after.last() == VolumeView { name: name, empty_dir: true }
            &&& ensure_volume_spec(spec, name).containers == spec.containers
            &&& ensure_volume_spec(spec, name).init_containers == spec.init_containers
        }),
{
    let before = unwrap_or_empty(spec.volumes);
    let after = unwrap_or_empty(ensure_volume_spec(spec, name).volumes);
    if !has_volume(before, name) {
        assert(after[before.len() as int].name == name);
    }
}

} // verus!
