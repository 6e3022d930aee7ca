//! The decisions of the binary patcher: which find/replace pairs to apply,
//! and what one pair does to the data.

use vstd::prelude::*;

use crate::hexcode::{
    cleaned_bytes, decode_hex, decode_hex_pattern, decode_pattern_spec, hex_decode_spec,
    pairs_sliceable, HexDecodeError, PatternError,
};
use crate::search::{
    find_all, greedy_matches, replace_at_positions, rewrite_from, Pattern,
};

verus! {

/// One find/replace pair, as hex strings.
pub struct PatchSpec {
    pub find: String,
    pub replace: String,
}

/// Why the patcher gave up.
#[derive(Debug)]
pub enum PatcherError {
    /// `--find` and `--replace` were not given the same number of times.
    UnpairedFlags,
    /// No pair was given at all.
    NoSpecs,
    /// The find string is no valid hex pattern.
    Pattern { find: String, error: PatternError },
    /// The replace string is no valid hex.
    Hex { replace: String, hex_error: HexDecodeError },
    /// The pattern and the replacement differ in length.
    LengthMismatch { find_len: usize, replace_len: usize },
}

/// What running the pairs in order did.
pub struct PatchRun {
    /// How many occurrences each pair that ran found, in order.
    pub counts: Vec<usize>,
    /// The data after the last pair that ran (the input in a dry run).
    pub data: Vec<u8>,
    /// The error that stopped the run, from the pair after the counted ones.
    pub error: Option<PatcherError>,
}

/// What applying one pair did.
pub struct PatchStep {
    /// How many occurrences of the pattern were found.
    pub count: usize,
    /// The patched data; `None` in a dry run.
    pub output: Option<Vec<u8>>,
}

/// The pairs given on the command line, matched up in order.
pub fn pair_specs(find: &Vec<String>, replace: &Vec<String>) -> (r: Result<Vec<PatchSpec>, PatcherError>)
    ensures
        find@.len() != replace@.len() <==> r is Err,
        r matches Err(e) ==> e is UnpairedFlags,
        r matches Ok(v) ==> v@.len() == find@.len() && forall|i: int|
            0 <= i < v@.len() ==> (#[trigger] v@[i]).find == find@[i] && v@[i].replace
                == replace@[i],
{
    if find.len() != replace.len() {
        return Err(PatcherError::UnpairedFlags);
    }
    let mut specs: Vec<PatchSpec> = Vec::new();
    let mut i: usize = 0;
    while i < find.len()
        invariant
            0 <= i <= find@.len(),
            find@.len() == replace@.len(),
            specs@.len() == i,
            forall|j: int|
                0 <= j < i ==> (#[trigger] specs@[j]).find == find@[j] && specs@[j].replace
                    == replace@[j],
        decreases find@.len() - i,
    {
        specs.push(PatchSpec { find: find[i].clone(), replace: replace[i].clone() });
        i = i + 1;
    }
    Ok(specs)
}

/// The command-line pairs followed by those from the environment; there must
/// be at least one.
pub fn collect_specs(specs: Vec<PatchSpec>, env_specs: Option<Vec<PatchSpec>>) -> (r: Result<
    Vec<PatchSpec>,
    PatcherError,
>)
    ensures
        ({
            let all = match env_specs {
                Some(e) => specs@ + e@,
                None => specs@,
            };
            &&& all.len() == 0 <==> r is Err
            &&& r matches Err(e) ==> e is NoSpecs
            &&& r matches Ok(v) ==> v@ == all
        }),
{
    let mut specs = specs;
    match env_specs {
        Some(more) => {
            let mut more = more;
            specs.append(&mut more);
        },
        None => {},
    }
    if specs.len() == 0 {
        return Err(PatcherError::NoSpecs);
    }
    Ok(specs)
}

/// A pair with this pattern runs without a panic: the pattern's pairs can be
/// cut out of the cleaned string on character boundaries.
pub open spec fn step_defined(find: Seq<char>) -> bool {
    cleaned_bytes(find).len() % 2 == 0 ==> pairs_sliceable(cleaned_bytes(find), 0)
}

/// Whether [`patch_step`] may be called with this pair.
pub fn step_is_defined(spec: &PatchSpec) -> (r: bool)
    ensures
        r == step_defined(spec.find@),
{
    crate::hexcode::pattern_is_sliceable(spec.find.as_str())
}


/// The outcome of [`patch_step`], from the find and replace strings.
pub open spec fn step_spec(
    data: Seq<u8>,
    find: Seq<char>,
    replace: Seq<char>,
    dry_run: bool,
) -> Result<(nat, Option<Seq<u8>>), PatternOrHexError> {
    match decode_pattern_spec(cleaned_bytes(find)) {
        Err(e) => Err(PatternOrHexError::Pattern(e)),
        Ok(p) => match hex_decode_spec(cleaned_bytes(replace)) {
            Err(e) => Err(PatternOrHexError::Hex(e)),
            Ok(r) => if p.len() != r.len() {
                Err(PatternOrHexError::Length(p.len(), r.len()))
            } else {
                let positions = greedy_matches(data, p, 0);
                Ok(
                    (
                        positions.len(),
                        if dry_run {
                            None
                        } else {
                            Some(rewrite_from(data, positions, p, r, 0))
                        },
                    ),
                )
            },
        },
    }
}

/// What running the pairs in order gives: the count of each pair that ran,
/// the data after the last of them, and the failure that stopped the run.
pub open spec fn run_spec(data: Seq<u8>, specs: Seq<PatchSpec>, dry_run: bool) -> (
    Seq<nat>,
    Seq<u8>,
    Option<PatternOrHexError>,
)
    decreases specs.len(),
{
    if specs.len() == 0 {
        (seq![], data, None)
    } else {
        match step_spec(data, specs[0].find@, specs[0].replace@, dry_run) {
            Err(f) => (seq![], data, Some(f)),
            Ok((count, out)) => {
                let next = match out {
                    Some(o) => o,
                    None => data,
                };
                let rest = run_spec(next, specs.drop_first(), dry_run);
                (seq![count] + rest.0, rest.1, rest.2)
            },
        }
    }
}

/// The failures of one pair, as the contracts speak of them.
pub enum PatternOrHexError {
    Pattern(PatternError),
    Hex(HexDecodeError),
    Length(nat, nat),
}

/// Whether the error `e` of a run on `spec` is the failure `f`.
pub open spec fn error_is(e: PatcherError, spec: &PatchSpec, f: PatternOrHexError) -> bool {
    match f {
        PatternOrHexError::Pattern(pe) => e == PatcherError::Pattern { find: spec.find, error: pe },
        PatternOrHexError::Hex(he) => e == PatcherError::Hex { replace: spec.replace, hex_error: he },
        PatternOrHexError::Length(a, b) => e matches PatcherError::LengthMismatch {
            find_len,
            replace_len,
        } && find_len == a && replace_len == b,
    }
}

/// Apply one find/replace pair to `data`: decode both strings, check that
/// they have the same length, find every non-overlapping occurrence and,
/// unless this is a dry run, replace them (keeping the original byte under
/// each wildcard).
pub fn patch_step(data: &[u8], spec: &PatchSpec, dry_run: bool) -> (r: Result<
    PatchStep,
    PatcherError,
>)
    requires
        step_defined(spec.find@),
    ensures
        match step_spec(data@, spec.find@, spec.replace@, dry_run) {
            Ok((count, out)) => r matches Ok(step) && step.count == count && match out {
                Some(bytes) => step.output matches Some(v) && v@ == bytes,
                None => step.output is None,
            },
            Err(f) => r matches Err(e) && error_is(e, spec, f),
        },
{
    let find_pattern = match decode_hex_pattern(spec.find.as_str()) {
        Ok(p) => p,
        Err(error) => {
            return Err(PatcherError::Pattern { find: spec.find.clone(), error });
        },
    };
    let replace_bytes = match decode_hex(spec.replace.as_str()) {
        Ok(r) => r,
        Err(hex_error) => {
            return Err(PatcherError::Hex { replace: spec.replace.clone(), hex_error });
        },
    };
    if find_pattern.len() != replace_bytes.len() {
        return Err(
            PatcherError::LengthMismatch {
                find_len: find_pattern.len(),
                replace_len: replace_bytes.len(),
            },
        );
    }
    let positions = find_all(data, find_pattern.as_slice());
    let count = positions.len();
    if dry_run {
        return Ok(PatchStep { count, output: None });
    }
    let dlen = data.len();
    proof {
        crate::search::lemma_greedy_fit(data@, find_pattern@, 0, 0);
    }
    let output = replace_at_positions(
        data,
        positions.as_slice(),
        find_pattern.as_slice(),
        replace_bytes.as_slice(),
    );
    Ok(PatchStep { count, output: Some(output) })
}

/// Apply the pairs in order, each to the output of the one before (in a dry
/// run, each to the input), stopping at the first that fails.
pub fn patch_all(data: Vec<u8>, specs: &[PatchSpec], dry_run: bool) -> (r: PatchRun)
    requires
        forall|i: int| 0 <= i < specs@.len() ==> step_defined(#[trigger] specs@[i].find@),
    ensures
        r.counts@.len() == run_spec(data@, specs@, dry_run).0.len(),
        forall|k: int| 0 <= k < r.counts@.len() ==> r.counts@[k] == run_spec(data@, specs@, dry_run).0[k],
        r.data@ == run_spec(data@, specs@, dry_run).1,
        match run_spec(data@, specs@, dry_run).2 {
            None => r.error is None,
            Some(f) => r.error matches Some(e) && r.counts@.len() < specs@.len() && error_is(
                e,
                &specs@[r.counts@.len() as int],
                f,
            ),
        },
{
    let ghost whole = run_spec(data@, specs@, dry_run);
    let mut cur = data;
    let mut counts: Vec<usize> = Vec::new();
    let ghost mut done: Seq<nat> = seq![];
    let mut i: usize = 0;
    assert(specs@.skip(0) =~= specs@);
    while i < specs.len()
        invariant
            0 <= i <= specs@.len(),
            forall|j: int| 0 <= j < specs@.len() ==> step_defined(#[trigger] specs@[j].find@),
            whole == run_spec(data@, specs@, dry_run),
            counts@.len() == i,
            done.len() == i,
            forall|k: int| 0 <= k < i ==> counts@[k] == done[k],
            whole.0 == done + run_spec(cur@, specs@.skip(i as int), dry_run).0,
            whole.1 == run_spec(cur@, specs@.skip(i as int), dry_run).1,
            whole.2 == run_spec(cur@, specs@.skip(i as int), dry_run).2,
        decreases specs@.len() - i,
    {
        let ghost rest = specs@.skip(i as int);
        assert(rest[0] == specs@[i as int]);
        assert(rest.drop_first() =~= specs@.skip(i + 1));
        let ghost before = cur@;
        match patch_step(cur.as_slice(), &specs[i], dry_run) {
            Ok(step) => {
                counts.push(step.count);
                proof {
                    let c = step_spec(before, specs@[i as int].find@, specs@[i as int].replace@, dry_run)->Ok_0.0;
                    assert(done + (seq![c] + run_spec(
                        match step.output { Some(o) => o@, None => before },
                        specs@.skip(i + 1),
                        dry_run,
                    ).0) =~= done.push(c) + run_spec(
                        match step.output { Some(o) => o@, None => before },
                        specs@.skip(i + 1),
                        dry_run,
                    ).0);
                    done = done.push(c);
                }
                match step.output {
                    Some(o) => {
                        cur = o;
                    },
                    None => {},
                }
            },
            Err(e) => {
                assert(whole.0 =~= done);
                return PatchRun { counts, data: cur, error: Some(e) };
            },
        }
        i = i + 1;
    }
    assert(specs@.skip(i as int) =~= Seq::<PatchSpec>::empty());
    assert(whole.0 =~= done);
    PatchRun { counts, data: cur, error: None }
}

/// Law of [`patch_all`]: a dry run leaves the data as it was.
pub proof fn lemma_dry_run_keeps_data(data: Seq<u8>, specs: Seq<PatchSpec>)
    ensures
        run_spec(data, specs, true).1 == data,
    decreases specs.len(),
{
    if specs.len() > 0 {
        lemma_dry_run_keeps_data(data, specs.drop_first());
    }
}

/// Law of [`patch_all`]: running two lists of pairs one after the other is
/// running them joined: the counts are joined, the second list runs on the
/// data the first left, and a failure of the first stops the run.
pub proof fn lemma_run_concat(data: Seq<u8>, a: Seq<PatchSpec>, b: Seq<PatchSpec>, dry_run: bool)
    ensures
        run_spec(data, a, dry_run).2 is Some ==> run_spec(data, a + b, dry_run) == run_spec(data, a, dry_run),
        run_spec(data, a, dry_run).2 is None ==> run_spec(data, a + b, dry_run) == ({
            let first = run_spec(data, a, dry_run);
            let second = run_spec(first.1, b, dry_run);
            (first.0 + second.0, second.1, second.2)
        }),
    decreases a.len(),
{
    if a.len() == 0 {
        assert(a + b =~= b);
        assert(Seq::<nat>::empty() + run_spec(data, b, dry_run).0 =~= run_spec(data, b, dry_run).0);
    } else {
        assert((a + b)[0] == a[0]);
        assert((a + b).drop_first() =~= a.drop_first() + b);
        match step_spec(data, a[0].find@, a[0].replace@, dry_run) {
            Err(f) => {},
            Ok((count, out)) => {
                let next = match out {
                    Some(o) => o,
                    None => data,
                };
                lemma_run_concat(next, a.drop_first(), b, dry_run);
                let first = run_spec(next, a.drop_first(), dry_run);
                let second = run_spec(first.1, b, dry_run);
                assert(seq![count] + (first.0 + second.0) =~= (seq![count] + first.0) + second.0);
            },
        }
    }
}

} // verus!
