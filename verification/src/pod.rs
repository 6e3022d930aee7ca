//! The parts of a Kubernetes pod that the injection rules read and write,
//! held as plain values, with their mathematical views.

use vstd::prelude::*;

verus! {

/// A volume mount of a container.
pub struct VolumeMount {
    pub name: String,
    pub mount_path: String,
    pub read_only: Option<bool>,
    pub sub_path: Option<String>,
}

/// A container (or init container) of a pod.
pub struct Container {
    pub name: String,
    pub image: Option<String>,
    pub command: Option<Vec<String>>,
    pub args: Option<Vec<String>>,
    pub volume_mounts: Option<Vec<VolumeMount>>,
}

/// A volume of a pod; `empty_dir` tells whether it is an `emptyDir` volume.
pub struct Volume {
    pub name: String,
    pub empty_dir: bool,
}

/// The spec of a pod.
pub struct PodSpec {
    pub containers: Vec<Container>,
    pub init_containers: Option<Vec<Container>>,
    pub volumes: Option<Vec<Volume>>,
}

/// A pod: its spec and the annotations of its metadata (a map, held as its
/// entries, each key once).
pub struct Pod {
    pub spec: Option<PodSpec>,
    pub annotations: Option<Vec<(String, String)>>,
}

pub struct MountView {
    pub name: Seq<char>,
    pub mount_path: Seq<char>,
    pub read_only: Option<bool>,
    pub sub_path: Option<Seq<char>>,
}

pub struct ContainerView {
    pub name: Seq<char>,
    pub image: Option<Seq<char>>,
    pub command: Option<Seq<Seq<char>>>,
    pub args: Option<Seq<Seq<char>>>,
    pub volume_mounts: Option<Seq<MountView>>,
}

pub struct VolumeView {
    pub name: Seq<char>,
    pub empty_dir: bool,
}

pub struct PodSpecView {
    pub containers: Seq<ContainerView>,
    pub init_containers: Option<Seq<ContainerView>>,
    pub volumes: Option<Seq<VolumeView>>,
}

pub struct PodView {
    pub spec: Option<PodSpecView>,
    pub annotations: Option<Seq<(Seq<char>, Seq<char>)>>,
}

pub open spec fn opt_str(o: Option<String>) -> Option<Seq<char>> {
    match o {
        Some(s) => Some(s@),
        None => None,
    }
}

pub open spec fn strs(v: Vec<String>) -> Seq<Seq<char>> {
    v@.map_values(|s: String| s@)
}

pub open spec fn opt_strs(o: Option<Vec<String>>) -> Option<Seq<Seq<char>>> {
    match o {
        Some(v) => Some(strs(v)),
        None => None,
    }
}

pub open spec fn mounts_view(v: Vec<VolumeMount>) -> Seq<MountView> {
    v@.map_values(|m: VolumeMount| m@)
}

pub open spec fn containers_view(v: Vec<Container>) -> Seq<ContainerView> {
    v@.map_values(|c: Container| c@)
}

pub open spec fn volumes_view(v: Vec<Volume>) -> Seq<VolumeView> {
    v@.map_values(|x: Volume| x@)
}

pub open spec fn pairs_view(v: Vec<(String, String)>) -> Seq<(Seq<char>, Seq<char>)> {
    v@.map_values(|e: (String, String)| (e.0@, e.1@))
}

impl View for VolumeMount {
    type V = MountView;

    open spec fn view(&self) -> MountView {
        MountView {
            name: self.name@,
            mount_path: self.mount_path@,
            read_only: self.read_only,
            sub_path: opt_str(self.sub_path),
        }
    }
}

impl View for Container {
    type V = ContainerView;

    open spec fn view(&self) -> ContainerView {
        ContainerView {
            name: self.name@,
            image: opt_str(self.image),
            command: opt_strs(self.command),
            args: opt_strs(self.args),
            volume_mounts: match self.volume_mounts {
                Some(v) => Some(mounts_view(v)),
                None => None,
            },
        }
    }
}

impl View for Volume {
    type V = VolumeView;

    open spec fn view(&self) -> VolumeView {
        VolumeView { name: self.name@, empty_dir: self.empty_dir }
    }
}

impl View for PodSpec {
    type V = PodSpecView;

    open spec fn view(&self) -> PodSpecView {
        PodSpecView {
            containers: containers_view(self.containers),
            init_containers: match self.init_containers {
                Some(v) => Some(containers_view(v)),
                None => None,
            },
            volumes: match self.volumes {
                Some(v) => Some(volumes_view(v)),
                None => None,
            },
        }
    }
}

impl View for Pod {
    type V = PodView;

    open spec fn view(&self) -> PodView {
        PodView {
            spec: match self.spec {
                Some(s) => Some(s@),
                None => None,
            },
            annotations: match self.annotations {
                Some(v) => Some(pairs_view(v)),
                None => None,
            },
        }
    }
}

} // verus!
