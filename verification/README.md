# patcherd

Binary find-and-replace for executables, and the rules that inject the
patching step into Kubernetes pods, as a Verus-verified library.

- `src/search.rs`: byte patterns with `??` wildcards; leftmost
  non-overlapping search (through `memchr`) and replacement.
- `src/hexcode.rs`: hex strings as the patcher takes them.
- `src/patcher.rs`: what the find/replace pairs do to a file's bytes, one
  pair and a run of them.
- `src/types.rs`: the PatchRule resource and label selection.
- `src/pod.rs`, `src/mutator.rs`: the parts of a pod the injection touches,
  and the injection itself.
- `src/admission.rs`: the webhook's decisions (deny, allow, list rules,
  inject, patch), and the annotation map's laws.
- `src/text.rs`: string helpers, Unix file names, and the calls into std,
  `sha2` and `hex`.

`app/` holds the `patcher` command and the admission webhook: argument
parsing, files, the Kubernetes API and the HTTP server.
