use patcherd::patcher::{
    collect_specs, pair_specs, patch_all, patch_step, step_is_defined, PatchSpec, PatcherError,
};
use patcherd::hexcode::{HexDecodeError, PatternError};

fn spec(find: &str, replace: &str) -> PatchSpec {
    PatchSpec { find: find.to_string(), replace: replace.to_string() }
}

#[test]
fn pairs_must_match_up() {
    let find = vec!["AA".to_string()];
    let replace = vec![];
    assert!(matches!(pair_specs(&find, &replace), Err(PatcherError::UnpairedFlags)));
    let replace = vec!["BB".to_string()];
    let specs = pair_specs(&find, &replace).unwrap();
    assert_eq!(specs.len(), 1);
    assert_eq!(specs[0].find, "AA");
    assert_eq!(specs[0].replace, "BB");
}

#[test]
fn specs_need_at_least_one() {
    assert!(matches!(collect_specs(vec![], None), Err(PatcherError::NoSpecs)));
    assert!(matches!(collect_specs(vec![], Some(vec![])), Err(PatcherError::NoSpecs)));
    let all = collect_specs(vec![spec("AA", "BB")], Some(vec![spec("CC", "DD")])).unwrap();
    assert_eq!(all.len(), 2);
    assert_eq!(all[1].find, "CC");
}

#[test]
fn step_replaces_and_counts() {
    let data = vec![0, 0xDE, 0xAD, 0, 0xDE, 0xAD];
    let s = spec("DE AD", "0x01,0x02");
    assert!(step_is_defined(&s));
    let step = patch_step(&data, &s, false).unwrap();
    assert_eq!(step.count, 2);
    assert_eq!(step.output, Some(vec![0, 1, 2, 0, 1, 2]));
}

#[test]
fn step_dry_run_leaves_data() {
    let data = vec![0, 0xDE, 0xAD];
    let step = patch_step(&data, &spec("DE??", "0102"), true).unwrap();
    assert_eq!(step.count, 1);
    assert_eq!(step.output, None);
}

#[test]
fn step_wildcard_keeps_original_byte() {
    let data = vec![0xDE, 0x55, 0xDE, 0x66];
    let step = patch_step(&data, &spec("DE ??", "EE 00"), false).unwrap();
    assert_eq!(step.count, 2);
    assert_eq!(step.output, Some(vec![0xEE, 0x55, 0xEE, 0x66]));
}

#[test]
fn step_errors() {
    let data = vec![0u8; 4];
    assert!(matches!(
        patch_step(&data, &spec("ABC", "00"), false),
        Err(PatcherError::Pattern { error: PatternError::OddLength, .. })
    ));
    assert!(matches!(
        patch_step(&data, &spec("AB", "0"), false),
        Err(PatcherError::Hex { hex_error: HexDecodeError::OddLength, .. })
    ));
    assert!(matches!(
        patch_step(&data, &spec("AB", "0102"), false),
        Err(PatcherError::LengthMismatch { find_len: 1, replace_len: 2 })
    ));
}

#[test]
fn step_not_found() {
    let data = vec![1, 2, 3];
    let step = patch_step(&data, &spec("FF", "00"), false).unwrap();
    assert_eq!(step.count, 0);
    assert_eq!(step.output, Some(vec![1, 2, 3]));
}

#[test]
fn step_definedness() {
    let data = vec![1, 2, 3];
    // an all-wildcard pattern matches every window and keeps every byte
    assert!(step_is_defined(&spec("????", "0000")));
    let step = patch_step(&[1, 2, 3, 4, 5], &spec("????", "0000"), false).unwrap();
    assert_eq!(step.count, 2);
    assert_eq!(step.output, Some(vec![1, 2, 3, 4, 5]));
    assert!(step_is_defined(&spec("????", "0000")));
    // a pair that cuts a character in two
    assert!(!step_is_defined(&spec("a\u{e9}b", "0000")));
    // an odd length is reported, not a panic
    assert!(step_is_defined(&spec("\u{e9}a", "00")));
}

#[test]
fn patch_all_runs_pairs_in_order() {
    let specs = vec![spec("0102", "0304"), spec("0304", "0506")];
    let run = patch_all(vec![1, 2, 9, 1, 2], &specs, false);
    assert_eq!(run.counts, vec![2, 2]);
    assert_eq!(run.data, vec![5, 6, 9, 5, 6]);
    assert!(run.error.is_none());

    let dry = patch_all(vec![1, 2, 9, 1, 2], &specs, true);
    assert_eq!(dry.counts, vec![2, 0]);
    assert_eq!(dry.data, vec![1, 2, 9, 1, 2]);

    let failing = vec![spec("01", "02"), spec("01", "0203"), spec("02", "03")];
    let run = patch_all(vec![1, 1], &failing, false);
    assert_eq!(run.counts, vec![2]);
    assert_eq!(run.data, vec![2, 2]);
    assert!(matches!(run.error, Some(PatcherError::LengthMismatch { find_len: 1, replace_len: 2 })));
}
