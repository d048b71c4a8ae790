//! Walking the sampled stacks of a profile and counting frames.

use vstd::prelude::*;

use crate::counts::{
    add_each, add_one, cache_ok, cached_slot, lemma_add_each_prefix_le, total_of,
    opt_view, count_in, fits, Count, CountTable, MixedKey,
};
use crate::number::{digits_spec, push_digits};
use crate::paths::{build_target_lib_flags, lib_is_target_spec, opt_str_view};
use crate::profile::{Lib, Profile, Samples, Thread};
use crate::text::string_of;

verus! {

/// Why a profile cannot be summarised.
#[derive(Debug, Clone, Copy, PartialEq, Eq, Structural)]
pub enum ParseError {
    /// A stack index has no entry in the stack table.
    StackIndexOutOfBounds { stack: usize },
    /// A frame index has no entry in the frame table.
    FrameFuncOutOfBounds { frame: usize },
    /// A function index has no entry in the function table.
    FuncNameOutOfBounds { func: usize },
    /// A sampled stack names a frame past the end of the frame table.
    FrameKeyOutOfBounds { frame: usize, len: usize },
    /// The stack chain of a sample never reaches a root.
    CyclicStack { stack: usize },
    /// A count exceeds the `u64` range.
    CountOverflow,
}

/// The frame of stack `s`.
pub open spec fn frame_index_spec(t: &Thread, s: int) -> Result<usize, ParseError> {
    if 0 <= s < t.stack_table.frame@.len() {
        Ok(t.stack_table.frame@[s])
    } else {
        Err(ParseError::StackIndexOutOfBounds { stack: s as usize })
    }
}

/// The caller stack of stack `s`, if any.
pub open spec fn stack_prefix_spec(t: &Thread, s: int) -> Option<usize> {
    if 0 <= s < t.stack_table.prefix@.len() {
        t.stack_table.prefix@[s]
    } else {
        None
    }
}

/// The raw name of frame `f`: its function's string, or `<index>` when the
/// string array has no such entry.
pub open spec fn raw_name_spec(t: &Thread, f: int) -> Result<Seq<char>, ParseError> {
    if !(0 <= f < t.frame_table.func@.len()) {
        Err(ParseError::FrameFuncOutOfBounds { frame: f as usize })
    } else {
        let func = t.frame_table.func@[f];
        if func >= t.func_table.name@.len() {
            Err(ParseError::FuncNameOutOfBounds { func })
        } else {
            let name = t.func_table.name@[func as int];
            if name < t.string_array@.len() {
                Ok(t.string_array@[name as int]@)
            } else {
                Ok(seq!['<'] + digits_spec(name as nat, 10) + seq!['>'])
            }
        }
    }
}

/// The image index of frame `f`, through its function's resource; none when
/// the thread has no resources or any link is missing or negative.
pub open spec fn lib_index_spec(t: &Thread, f: int) -> Result<Option<usize>, ParseError> {
    match t.func_table.resource {
        None => Ok(None),
        Some(resources) => if !(0 <= f < t.frame_table.func@.len()) {
            Err(ParseError::FrameFuncOutOfBounds { frame: f as usize })
        } else {
            let func = t.frame_table.func@[f];
            if func >= resources@.len() {
                Ok(None)
            } else {
                match resources@[func as int] {
                    None => Ok(None),
                    Some(res) => if res < 0 || res >= t.resource_table.lib@.len() {
                        Ok(None)
                    } else {
                        match t.resource_table.lib@[res as int] {
                            None => Ok(None),
                            Some(lib) => if lib < 0 {
                                Ok(None)
                            } else {
                                Ok(Some(lib as usize))
                            },
                        }
                    },
                }
            }
        },
    }
}

/// Whether frame `f` belongs to the target binary: always, when the thread
/// has no resources; otherwise when its image is flagged in `target_libs`.
pub open spec fn target_frame_spec(t: &Thread, target_libs: Seq<bool>, f: int) -> Result<
    bool,
    ParseError,
> {
    if t.func_table.resource is None {
        Ok(true)
    } else {
        match lib_index_spec(t, f) {
            Err(e) => Err(e),
            Ok(None) => Ok(false),
            Ok(Some(l)) => Ok(l < target_libs.len() && target_libs[l as int]),
        }
    }
}

/// The key of frame `f` in a multi-image profile: its image path (when
/// known) and raw name.
pub open spec fn frame_key_spec(t: &Thread, libs: Seq<Lib>, f: int) -> Result<
    (Option<Seq<char>>, Seq<char>),
    ParseError,
> {
    match raw_name_spec(t, f) {
        Err(e) => Err(e),
        Ok(raw) => match lib_index_spec(t, f) {
            Err(e) => Err(e),
            Ok(None) => Ok((None, raw)),
            Ok(Some(l)) => if l < libs.len() {
                Ok((opt_view(libs[l as int].path), raw))
            } else {
                Ok((None, raw))
            },
        },
    }
}

/// `f(0), ..., f(n - 1)`, or the first error among them.
pub open spec fn collect_results<T>(n: nat, f: spec_fn(int) -> Result<T, ParseError>) -> Result<
    Seq<T>,
    ParseError,
>
    decreases n,
{
    if n == 0 {
        Ok(Seq::empty())
    } else {
        match collect_results((n - 1) as nat, f) {
            Err(e) => Err(e),
            Ok(v) => match f(n - 1) {
                Err(e) => Err(e),
                Ok(x) => Ok(v.push(x)),
            },
        }
    }
}

/// The raw names of all frames of `t`.
pub open spec fn frame_names_spec(t: &Thread) -> Result<Seq<Seq<char>>, ParseError> {
    collect_results(t.frame_table.func@.len(), |f: int| raw_name_spec(t, f))
}

/// The target flags of all frames of `t`.
pub open spec fn target_flags_spec(t: &Thread, target_libs: Seq<bool>) -> Result<
    Seq<bool>,
    ParseError,
> {
    collect_results(t.frame_table.func@.len(), |f: int| target_frame_spec(t, target_libs, f))
}

/// The keys of all frames of `t` in a multi-image profile.
pub open spec fn frame_keys_spec(t: &Thread, libs: Seq<Lib>) -> Result<
    Seq<(Option<Seq<char>>, Seq<char>)>,
    ParseError,
> {
    collect_results(t.frame_table.func@.len(), |f: int| frame_key_spec(t, libs, f))
}

/// The per-sample CPU times, when weighting by CPU time is asked for and the
/// profile has one value per sample.
pub open spec fn deltas_spec(samples: &Samples, cpu_weighted: bool) -> Option<Seq<Count>> {
    if cpu_weighted {
        match samples.thread_cpu_delta {
            Some(d) => if d@.len() == samples.stack@.len() {
                Some(d@)
            } else {
                None
            },
            None => None,
        }
    } else {
        None
    }
}

/// The weight of sample `i`: its CPU time when weighting applies, else 1.
pub open spec fn weight_spec(samples: &Samples, cpu_weighted: bool, i: int) -> Count {
    match deltas_spec(samples, cpu_weighted) {
        Some(d) => if 0 <= i < d.len() {
            d[i]
        } else {
            1
        },
        None => 1,
    }
}

/// The frames met walking from stack `s` to its root (leaf first), allowing
/// `fuel` more steps to a caller.  With `bound`, each frame must be below it.
pub open spec fn walk_spec(t: &Thread, start: usize, s: int, fuel: nat, bound: Option<nat>) -> Result<
    Seq<usize>,
    ParseError,
>
    decreases fuel,
{
    match frame_index_spec(t, s) {
        Err(e) => Err(e),
        Ok(f) => if bound matches Some(b) && f >= b {
            Err(ParseError::FrameKeyOutOfBounds { frame: f, len: bound->0 as usize })
        } else {
            match stack_prefix_spec(t, s) {
                None => Ok(seq![f]),
                Some(next) => if fuel == 0 {
                    Err(ParseError::CyclicStack { stack: start })
                } else {
                    match walk_spec(t, start, next as int, (fuel - 1) as nat, bound) {
                        Err(e) => Err(e),
                        Ok(rest) => Ok(seq![f] + rest),
                    }
                },
            }
        },
    }
}

/// The frames of the sample whose stack is `start` (leaf first).  A chain
/// longer than the stack table is reported as cyclic.
pub open spec fn sample_frames_spec(t: &Thread, start: usize, bound: Option<nat>) -> Result<
    Seq<usize>,
    ParseError,
> {
    walk_spec(t, start, start as int, t.stack_table.frame@.len(), bound)
}

/// The frame of stack `stack_idx`.
pub fn frame_index(thread: &Thread, stack_idx: usize) -> (r: Result<usize, ParseError>)
    ensures
        r == frame_index_spec(thread, stack_idx as int),
{
    if stack_idx < thread.stack_table.frame.len() {
        Ok(thread.stack_table.frame[stack_idx])
    } else {
        Err(ParseError::StackIndexOutOfBounds { stack: stack_idx })
    }
}

/// The caller of stack `stack_idx`.
pub fn stack_prefix(thread: &Thread, stack_idx: usize) -> (r: Option<usize>)
    ensures
        r == stack_prefix_spec(thread, stack_idx as int),
{
    if stack_idx < thread.stack_table.prefix.len() {
        thread.stack_table.prefix[stack_idx]
    } else {
        None
    }
}

/// The raw name of frame `frame_idx`.
pub fn raw_name(thread: &Thread, frame_idx: usize) -> (r: Result<String, ParseError>)
    ensures
        match r {
            Ok(s) => raw_name_spec(thread, frame_idx as int) == Ok::<Seq<char>, ParseError>(s@),
            Err(e) => raw_name_spec(thread, frame_idx as int) == Err::<Seq<char>, ParseError>(e),
        },
{
    if frame_idx >= thread.frame_table.func.len() {
        return Err(ParseError::FrameFuncOutOfBounds { frame: frame_idx });
    }
    let func_idx = thread.frame_table.func[frame_idx];
    if func_idx >= thread.func_table.name.len() {
        return Err(ParseError::FuncNameOutOfBounds { func: func_idx });
    }
    let name_idx = thread.func_table.name[func_idx];
    if name_idx < thread.string_array.len() {
        Ok(thread.string_array[name_idx].clone())
    } else {
        let mut out: Vec<char> = Vec::new();
        out.push('<');
        push_digits(&mut out, name_idx as u64, 10);
        out.push('>');
        assert(out@ == seq!['<'] + digits_spec(name_idx as nat, 10) + seq!['>']);
        Ok(string_of(&out))
    }
}

/// The image index of frame `frame_idx`, if it has one.
pub fn lib_index_for_frame(thread: &Thread, frame_idx: usize) -> (r: Result<
    Option<usize>,
    ParseError,
>)
    ensures
        r == lib_index_spec(thread, frame_idx as int),
{
    let resources = match &thread.func_table.resource {
        Some(resources) => resources,
        None => {
            return Ok(None);
        },
    };
    if frame_idx >= thread.frame_table.func.len() {
        return Err(ParseError::FrameFuncOutOfBounds { frame: frame_idx });
    }
    let func_idx = thread.frame_table.func[frame_idx];
    if func_idx >= resources.len() {
        return Ok(None);
    }
    let resource_idx = match resources[func_idx] {
        Some(r) => r,
        None => {
            return Ok(None);
        },
    };
    if resource_idx < 0 {
        return Ok(None);
    }
    let resource = resource_idx as usize;
    if resource >= thread.resource_table.lib.len() {
        return Ok(None);
    }
    let lib_idx = match thread.resource_table.lib[resource] {
        Some(l) => l,
        None => {
            return Ok(None);
        },
    };
    if lib_idx < 0 {
        return Ok(None);
    }
    Ok(Some(lib_idx as usize))
}

/// The view of a list of names.
pub open spec fn names_view(v: Seq<String>) -> Seq<Seq<char>> {
    v.map_values(|k: String| k@)
}

/// The view of a list of mixed keys.
pub open spec fn keys_view(v: Seq<MixedKey>) -> Seq<(Option<Seq<char>>, Seq<char>)> {
    v.map_values(|k: MixedKey| k@)
}

/// The raw names of all frames of a thread.
pub fn build_frame_names(thread: &Thread) -> (r: Result<Vec<String>, ParseError>)
    ensures
        match r {
            Ok(v) => frame_names_spec(thread) == Ok::<Seq<Seq<char>>, ParseError>(names_view(v@))
                && v.len() == thread.frame_table.func@.len(),
            Err(e) => frame_names_spec(thread) == Err::<Seq<Seq<char>>, ParseError>(e),
        },
{
    let ghost f = |f: int| raw_name_spec(thread, f);
    let n = thread.frame_table.func.len();
    let mut v: Vec<String> = Vec::new();
    assert(names_view(v@) =~= Seq::<Seq<char>>::empty());
    for i in 0..n
        invariant
            n == thread.frame_table.func@.len(),
            f == (|f: int| raw_name_spec(thread, f)),
            v.len() == i,
            collect_results(i as nat, f) == Ok::<Seq<Seq<char>>, ParseError>(names_view(v@)),
    {
        match raw_name(thread, i) {
            Ok(s) => {
                let ghost old_v = v@;
                let ghost sv = s@;
                v.push(s);
                assert(names_view(v@) =~= names_view(old_v).push(sv));
            },
            Err(e) => {
                proof {
                    lemma_collect_err_persists(f, (i + 1) as nat, n as nat);
                }
                return Err(e);
            },
        }
    }
    Ok(v)
}

/// Once `collect_results` fails on a prefix, it fails the same way on every
/// longer prefix.
pub proof fn lemma_collect_err_persists<T>(
    f: spec_fn(int) -> Result<T, ParseError>,
    i: nat,
    n: nat,
)
    requires
        i <= n,
        collect_results(i, f) is Err,
    ensures
        collect_results(n, f) == collect_results(i, f),
    decreases n - i,
{
    if i < n {
        lemma_collect_err_persists(f, i, (n - 1) as nat);
    }
}

/// The target flags of all frames of a thread.
pub fn build_target_frame_flags(thread: &Thread, target_libs: &Vec<bool>) -> (r: Result<
    Vec<bool>,
    ParseError,
>)
    ensures
        match r {
            Ok(v) => target_flags_spec(thread, target_libs@) == Ok::<Seq<bool>, ParseError>(v@)
                && v.len() == thread.frame_table.func@.len(),
            Err(e) => target_flags_spec(thread, target_libs@) == Err::<Seq<bool>, ParseError>(e),
        },
{
    let ghost f = |f: int| target_frame_spec(thread, target_libs@, f);
    let n = thread.frame_table.func.len();
    let mut v: Vec<bool> = Vec::new();
    for i in 0..n
        invariant
            n == thread.frame_table.func@.len(),
            f == (|f: int| target_frame_spec(thread, target_libs@, f)),
            v.len() == i,
            collect_results(i as nat, f) == Ok::<Seq<bool>, ParseError>(v@),
    {
        if thread.func_table.resource.is_none() {
            v.push(true);
        } else {
            match lib_index_for_frame(thread, i) {
                Ok(lib) => {
                    let flag = match lib {
                        Some(l) => l < target_libs.len() && target_libs[l],
                        None => false,
                    };
                    v.push(flag);
                },
                Err(e) => {
                    proof {
                        lemma_collect_err_persists(f, (i + 1) as nat, n as nat);
                    }
                    return Err(e);
                },
            }
        }
    }
    Ok(v)
}

/// The keys of all frames of a thread in a multi-image profile.
pub fn build_frame_keys(thread: &Thread, libs: &Vec<Lib>) -> (r: Result<Vec<MixedKey>, ParseError>)
    ensures
        match r {
            Ok(v) => frame_keys_spec(thread, libs@) == Ok::<
                Seq<(Option<Seq<char>>, Seq<char>)>,
                ParseError,
            >(keys_view(v@)) && v.len() == thread.frame_table.func@.len(),
            Err(e) => frame_keys_spec(thread, libs@) == Err::<
                Seq<(Option<Seq<char>>, Seq<char>)>,
                ParseError,
            >(e),
        },
{
    let ghost f = |f: int| frame_key_spec(thread, libs@, f);
    let n = thread.frame_table.func.len();
    let mut v: Vec<MixedKey> = Vec::new();
    assert(keys_view(v@) =~= Seq::<(Option<Seq<char>>, Seq<char>)>::empty());
    for i in 0..n
        invariant
            n == thread.frame_table.func@.len(),
            f == (|f: int| frame_key_spec(thread, libs@, f)),
            v.len() == i,
            collect_results(i as nat, f) == Ok::<
                Seq<(Option<Seq<char>>, Seq<char>)>,
                ParseError,
            >(keys_view(v@)),
    {
        let raw = match raw_name(thread, i) {
            Ok(raw) => raw,
            Err(e) => {
                proof {
                    lemma_collect_err_persists(f, (i + 1) as nat, n as nat);
                }
                return Err(e);
            },
        };
        let lib = match lib_index_for_frame(thread, i) {
            Ok(lib) => lib,
            Err(e) => {
                proof {
                    lemma_collect_err_persists(f, (i + 1) as nat, n as nat);
                }
                return Err(e);
            },
        };
        let image = match lib {
            Some(l) => if l < libs.len() {
                match &libs[l].path {
                    Some(p) => Some(p.clone()),
                    None => None,
                }
            } else {
                None
            },
            None => None,
        };
        let key = MixedKey { image, raw };
        let ghost kv = key@;
        let ghost old_v = v@;
        v.push(key);
        assert(keys_view(v@) =~= keys_view(old_v).push(kv));
    }
    Ok(v)
}

/// The per-sample weights of one thread.
pub struct SampleWeights<'a> {
    pub deltas: Option<&'a Vec<Count>>,
}

impl<'a> SampleWeights<'a> {
    /// CPU times when `cpu_weighted` is set and there is one per sample.
    pub fn new(samples: &'a Samples, cpu_weighted: bool) -> (w: Self)
        ensures
            match w.deltas {
                Some(d) => deltas_spec(samples, cpu_weighted) == Some(d@),
                None => deltas_spec(samples, cpu_weighted) is None,
            },
    {
        let deltas = if cpu_weighted {
            match &samples.thread_cpu_delta {
                Some(d) => if d.len() == samples.stack.len() {
                    Some(d)
                } else {
                    None
                },
                None => None,
            }
        } else {
            None
        };
        SampleWeights { deltas }
    }

    /// The weight of sample `idx`.
    pub fn get(&self, idx: usize) -> (c: Count)
        ensures
            c == (match self.deltas {
                Some(d) => if idx < d@.len() {
                    d@[idx as int]
                } else {
                    1
                },
                None => 1,
            }),
    {
        match self.deltas {
            Some(d) => if idx < d.len() {
                d[idx]
            } else {
                1
            },
            None => 1,
        }
    }
}

/// The frames of the sample whose stack is `start`, leaf first.  With
/// `bound`, every frame must be below it.
pub fn walk_stack(thread: &Thread, start: usize, bound: Option<usize>) -> (r: Result<
    Vec<usize>,
    ParseError,
>)
    ensures
        match r {
            Ok(v) => sample_frames_spec(
                thread,
                start,
                match bound {
                    Some(b) => Some(b as nat),
                    None => None,
                },
            ) == Ok::<Seq<usize>, ParseError>(v@),
            Err(e) => sample_frames_spec(
                thread,
                start,
                match bound {
                    Some(b) => Some(b as nat),
                    None => None,
                },
            ) == Err::<Seq<usize>, ParseError>(e),
        },
{
    let ghost b = match bound {
        Some(b) => Some(b as nat),
        None => None,
    };
    let total = thread.stack_table.frame.len();
    let mut frames: Vec<usize> = Vec::new();
    let mut idx = start;
    let mut fuel = total;
    loop
        invariant
            total == thread.stack_table.frame@.len(),
            fuel <= total,
            b == (match bound {
                Some(b) => Some(b as nat),
                None => None,
            }),
            sample_frames_spec(thread, start, b) == (match walk_spec(
                thread,
                start,
                idx as int,
                fuel as nat,
                b,
            ) {
                Err(e) => Err(e),
                Ok(rest) => Ok(frames@ + rest),
            }),
        decreases fuel,
    {
        let f = match frame_index(thread, idx) {
            Ok(f) => f,
            Err(e) => {
                return Err(e);
            },
        };
        if let Some(bd) = bound {
            if f >= bd {
                return Err(ParseError::FrameKeyOutOfBounds { frame: f, len: bd });
            }
        }
        let ghost before = frames@;
        frames.push(f);
        match stack_prefix(thread, idx) {
            None => {
                assert(frames@ == before + seq![f]);
                return Ok(frames);
            },
            Some(next) => {
                if fuel == 0 {
                    return Err(ParseError::CyclicStack { stack: start });
                }
                proof {
                    let w = walk_spec(thread, start, next as int, (fuel - 1) as nat, b);
                    if let Ok(rest) = w {
                        assert(before + (seq![f] + rest) == frames@ + rest);
                    }
                }
                idx = next;
                fuel = fuel - 1;
            },
        }
    }
}

/// Counts of a single-image profile, by raw frame name.
pub struct SingleCounts {
    /// SELF counts: per sample, its leaf-most frame of the target binary.
    pub leaf: CountTable<String>,
    /// TOTAL counts: every target frame of every sample.
    pub all: CountTable<String>,
    /// The addresses counted for line-level breakdowns.
    pub addr: CountTable<String>,
}

/// The three count maps of a single-image profile.
#[verifier::ext_equal]
pub struct SingleModel {
    pub leaf: Map<Seq<char>, nat>,
    pub all: Map<Seq<char>, nat>,
    pub addr: Map<Seq<char>, nat>,
}

impl SingleCounts {
    pub open spec fn wf(&self) -> bool {
        self.leaf.wf() && self.all.wf() && self.addr.wf()
    }

    pub open spec fn model(&self) -> SingleModel {
        SingleModel { leaf: self.leaf@, all: self.all@, addr: self.addr@ }
    }
}

/// No counts yet.
pub open spec fn empty_single_model() -> SingleModel {
    SingleModel { leaf: Map::empty(), all: Map::empty(), addr: Map::empty() }
}

/// The names of the target frames among `frames`, in walk order.
pub open spec fn target_names(frames: Seq<usize>, names: Seq<Seq<char>>, flags: Seq<bool>) -> Seq<
    Seq<char>,
>
    decreases frames.len(),
{
    if frames.len() == 0 {
        Seq::empty()
    } else {
        let rest = target_names(frames.drop_last(), names, flags);
        let f = frames.last();
        if f < flags.len() && flags[f as int] && f < names.len() {
            rest.push(names[f as int])
        } else {
            rest
        }
    }
}

/// One sample whose walk met the target frames `tn` (leaf first), with
/// weight `w`: each target frame counts towards TOTAL and the address
/// counts, the first one towards SELF.
pub open spec fn single_sample_spec(m: SingleModel, tn: Seq<Seq<char>>, w: nat) -> Result<
    SingleModel,
    ParseError,
> {
    let all = add_each(m.all, tn, w);
    let addr = add_each(m.addr, tn, w);
    let leaf = if tn.len() > 0 {
        add_one(m.leaf, tn[0], w)
    } else {
        m.leaf
    };
    if fits(all) && fits(addr) && fits(leaf) {
        Ok(SingleModel { leaf, all, addr })
    } else {
        Err(ParseError::CountOverflow)
    }
}

/// The first `n` samples of `t` counted into `m`.
pub open spec fn single_samples_spec(
    m: SingleModel,
    t: &Thread,
    names: Seq<Seq<char>>,
    flags: Seq<bool>,
    cpu_weighted: bool,
    n: nat,
) -> Result<SingleModel, ParseError>
    decreases n,
{
    if n == 0 {
        Ok(m)
    } else {
        match single_samples_spec(m, t, names, flags, cpu_weighted, (n - 1) as nat) {
            Err(e) => Err(e),
            Ok(m1) => match t.samples.stack@[n - 1] {
                None => Ok(m1),
                Some(s) => match sample_frames_spec(t, s, None) {
                    Err(e) => Err(e),
                    Ok(frames) => single_sample_spec(
                        m1,
                        target_names(frames, names, flags),
                        weight_spec(&t.samples, cpu_weighted, n - 1) as nat,
                    ),
                },
            },
        }
    }
}

/// Thread `t` counted into `m`: threads without samples are skipped; the
/// frame names and target flags are computed before any sample.
pub open spec fn single_thread_spec(
    m: SingleModel,
    t: &Thread,
    target_libs: Seq<bool>,
    cpu_weighted: bool,
) -> Result<SingleModel, ParseError> {
    if t.samples.stack@.len() == 0 {
        Ok(m)
    } else {
        match frame_names_spec(t) {
            Err(e) => Err(e),
            Ok(names) => match target_flags_spec(t, target_libs) {
                Err(e) => Err(e),
                Ok(flags) => single_samples_spec(
                    m,
                    t,
                    names,
                    flags,
                    cpu_weighted,
                    t.samples.stack@.len(),
                ),
            },
        }
    }
}

/// The first `n` threads of `p` counted.
pub open spec fn single_threads_spec(
    p: &Profile,
    target_libs: Seq<bool>,
    cpu_weighted: bool,
    n: nat,
) -> Result<SingleModel, ParseError>
    decreases n,
{
    if n == 0 {
        Ok(empty_single_model())
    } else {
        match single_threads_spec(p, target_libs, cpu_weighted, (n - 1) as nat) {
            Err(e) => Err(e),
            Ok(m) => single_thread_spec(m, &p.threads@[n - 1], target_libs, cpu_weighted),
        }
    }
}

/// The counts of a single-image profile whose images are flagged by
/// `target_libs`.
pub open spec fn parse_single_spec(p: &Profile, target_libs: Seq<bool>, cpu_weighted: bool) -> Result<
    SingleModel,
    ParseError,
> {
    single_threads_spec(p, target_libs, cpu_weighted, p.threads@.len())
}

proof fn lemma_target_names_prefix(fs: Seq<usize>, names: Seq<Seq<char>>, flags: Seq<bool>, a: int)
    requires
        0 <= a <= fs.len(),
    ensures
        target_names(fs.take(a), names, flags).len() <= target_names(fs, names, flags).len(),
        target_names(fs.take(a), names, flags) == target_names(fs, names, flags).take(
            target_names(fs.take(a), names, flags).len() as int,
        ),
    decreases fs.len(),
{
    let full = target_names(fs, names, flags);
    if a == fs.len() {
        assert(fs.take(a) == fs);
        assert(full.take(full.len() as int) == full);
    } else {
        let dl = fs.drop_last();
        assert(fs.take(a) == dl.take(a));
        lemma_target_names_prefix(dl, names, flags, a);
        let tdl = target_names(dl, names, flags);
        let l = target_names(dl.take(a), names, flags).len() as int;
        assert(full.take(l) == tdl.take(l));
    }
}

/// The weight that the first `n` samples of `t` add to SELF in a
/// single-image profile: a sample counts when its walk meets a frame of
/// the binary.
pub open spec fn single_self_weight(
    t: &Thread,
    names: Seq<Seq<char>>,
    flags: Seq<bool>,
    cpu_weighted: bool,
    n: nat,
) -> nat
    decreases n,
{
    if n == 0 {
        0
    } else {
        single_self_weight(t, names, flags, cpu_weighted, (n - 1) as nat) + match t.samples.stack@[n
            - 1] {
            Some(s) => match sample_frames_spec(t, s, None) {
                Ok(frames) => if target_names(frames, names, flags).len() > 0 {
                    weight_spec(&t.samples, cpu_weighted, n - 1) as nat
                } else {
                    0
                },
                Err(_) => 0,
            },
            None => 0,
        }
    }
}

/// The weight that the first `n` threads of `p` add to SELF in a
/// single-image profile.
pub open spec fn single_profile_self_weight(
    p: &Profile,
    target_libs: Seq<bool>,
    cpu_weighted: bool,
    n: nat,
) -> nat
    decreases n,
{
    if n == 0 {
        0
    } else {
        let t = &p.threads@[n - 1];
        single_profile_self_weight(p, target_libs, cpu_weighted, (n - 1) as nat) + if t.samples.stack@.len()
            == 0 {
            0
        } else {
            match (frame_names_spec(t), target_flags_spec(t, target_libs)) {
                (Ok(names), Ok(flags)) => single_self_weight(
                    t,
                    names,
                    flags,
                    cpu_weighted,
                    t.samples.stack@.len(),
                ),
                _ => 0,
            }
        }
    }
}

/// Counts one sample of a single-image profile.
fn count_single_sample(
    leaf: &mut CountTable<String>,
    all: &mut CountTable<String>,
    addr: &mut CountTable<String>,
    leaf_cache: &mut Vec<Option<usize>>,
    all_cache: &mut Vec<Option<usize>>,
    addr_cache: &mut Vec<Option<usize>>,
    frames: &Vec<usize>,
    names: &Vec<String>,
    flags: &Vec<bool>,
    w: Count,
) -> (r: Result<(), ParseError>)
    requires
        old(leaf).wf(),
        old(all).wf(),
        old(addr).wf(),
        old(all)@ == old(addr)@,
        names.len() == flags.len(),
        cache_ok(old(leaf), old(leaf_cache)@, names_view(names@)),
        cache_ok(old(all), old(all_cache)@, names_view(names@)),
        cache_ok(old(addr), old(addr_cache)@, names_view(names@)),
    ensures
        final(leaf).wf(),
        final(all).wf(),
        final(addr).wf(),
        cache_ok(final(leaf), final(leaf_cache)@, names_view(names@)),
        cache_ok(final(all), final(all_cache)@, names_view(names@)),
        cache_ok(final(addr), final(addr_cache)@, names_view(names@)),
        ({
            let spec_r = single_sample_spec(
                SingleModel { leaf: old(leaf)@, all: old(all)@, addr: old(addr)@ },
                target_names(frames@, names_view(names@), flags@),
                w as nat,
            );
            match r {
                Ok(_) => spec_r == Ok::<SingleModel, ParseError>(
                    SingleModel { leaf: final(leaf)@, all: final(all)@, addr: final(addr)@ },
                ),
                Err(e) => spec_r == Err::<SingleModel, ParseError>(e),
            }
        }),
        r is Ok ==> total_of(final(leaf)) == total_of(old(leaf)) + (if target_names(
            frames@,
            names_view(names@),
            flags@,
        ).len() > 0 {
            w as nat
        } else {
            0
        }),
{
    let ghost nv = names_view(names@);
    let ghost old_leaf = leaf@;
    let ghost old_leaf_total = total_of(leaf);
    let ghost old_all = all@;
    let ghost tn_full = target_names(frames@, nv, flags@);
    let n = frames.len();
    let mut leaf_frame: Option<usize> = None;
    assert(frames@.take(0) == Seq::<usize>::empty());
    for j in 0..n
        invariant
            n == frames.len(),
            names.len() == flags.len(),
            nv == names_view(names@),
            tn_full == target_names(frames@, nv, flags@),
            old_all == old(all)@,
            old_all == old(addr)@,
            old_leaf == old(leaf)@,
            old_leaf_total == total_of(old(leaf)),
            total_of(leaf) == old_leaf_total,
            leaf.wf(),
            all.wf(),
            addr.wf(),
            leaf@ == old_leaf,
            all@ == add_each(old_all, target_names(frames@.take(j as int), nv, flags@), w as nat),
            addr@ == all@,
            cache_ok(leaf, leaf_cache@, nv),
            cache_ok(all, all_cache@, nv),
            cache_ok(addr, addr_cache@, nv),
            match leaf_frame {
                Some(f) => f < names.len() && target_names(frames@.take(j as int), nv, flags@).len()
                    > 0 && target_names(frames@.take(j as int), nv, flags@)[0] == nv[f as int],
                None => target_names(frames@.take(j as int), nv, flags@).len() == 0,
            },
    {
        let f = frames[j];
        let ghost tnj = target_names(frames@.take(j as int), nv, flags@);
        proof {
            assert(frames@.take(j + 1).drop_last() == frames@.take(j as int));
            assert(frames@.take(j + 1).last() == f);
        }
        if f < flags.len() && flags[f] {
            let ghost k = nv[f as int];
            assert(names@[f as int]@ == k);
            proof {
                assert(target_names(frames@.take(j + 1), nv, flags@) == tnj.push(k));
            }
            let i = cached_slot(all, all_cache, names, f);
            let ghost all_slot = all@;
            let ok = all.add_at(i, w);
            if !ok {
                proof {
                    let tn1 = tnj.push(k);
                    assert(add_each(old_all, tn1, w as nat) == add_one(
                        add_each(old_all, tnj, w as nat),
                        k,
                        w as nat,
                    )) by {
                        assert(tn1.drop_last() == tnj);
                    }
                    lemma_target_names_prefix(frames@, nv, flags@, j + 1);
                    lemma_add_each_prefix_le(old_all, tn_full, w as nat, tn1.len() as int, k);
                    let full_all = add_each(old_all, tn_full, w as nat);
                    assert(count_in(full_all, k) > Count::MAX);
                    assert(full_all.contains_key(k));
                    assert(!fits(full_all));
                    assert(single_sample_spec(
                        SingleModel { leaf: old_leaf, all: old_all, addr: old_all },
                        tn_full,
                        w as nat,
                    ) == Err::<SingleModel, ParseError>(ParseError::CountOverflow));
                }
                return Err(ParseError::CountOverflow);
            }
            let i2 = cached_slot(addr, addr_cache, names, f);
            let ok2 = addr.add_at(i2, w);
            assert(ok2);
            proof {
                let tn1 = tnj.push(k);
                assert(tn1.drop_last() == tnj);
            }
            if leaf_frame.is_none() {
                leaf_frame = Some(f);
            }
        } else {
            proof {
                assert(target_names(frames@.take(j + 1), nv, flags@) == tnj);
            }
        }
    }
    assert(frames@.take(n as int) == frames@);
    proof {
        all.lemma_fits();
        addr.lemma_fits();
        assert(all@ == add_each(old_all, tn_full, w as nat));
    }
    match leaf_frame {
        Some(f) => {
            let ghost k = nv[f as int];
            assert(names@[f as int]@ == k);
            let i = cached_slot(leaf, leaf_cache, names, f);
            let ok = leaf.add_at(i, w);
            if !ok {
                proof {
                    let l2 = add_one(old_leaf, k, w as nat);
                    assert(tn_full.len() > 0 && tn_full[0] == k);
                    assert(l2.contains_key(k));
                    assert(l2[k] > Count::MAX);
                    assert(!fits(l2));
                }
                return Err(ParseError::CountOverflow);
            }
            proof {
                leaf.lemma_fits();
                assert(tn_full.len() > 0 && tn_full[0] == k);
                assert(leaf@ == add_one(old_leaf, k, w as nat));
            }
            Ok(())
        },
        None => {
            proof {
                leaf.lemma_fits();
            }
            Ok(())
        },
    }
}

proof fn lemma_single_samples_err(
    m: SingleModel,
    t: &Thread,
    names: Seq<Seq<char>>,
    flags: Seq<bool>,
    cpu_weighted: bool,
    i: nat,
    n: nat,
)
    requires
        i <= n,
        single_samples_spec(m, t, names, flags, cpu_weighted, i) is Err,
    ensures
        single_samples_spec(m, t, names, flags, cpu_weighted, n) == single_samples_spec(
            m,
            t,
            names,
            flags,
            cpu_weighted,
            i,
        ),
    decreases n - i,
{
    if i < n {
        lemma_single_samples_err(m, t, names, flags, cpu_weighted, i, (n - 1) as nat);
    }
}

/// A cache with no entry known, for `n` keys.
fn empty_cache(n: usize) -> (c: Vec<Option<usize>>)
    ensures
        c.len() == n,
        forall|i: int| 0 <= i < n ==> #[trigger] c@[i] is None,
{
    let mut c: Vec<Option<usize>> = Vec::new();
    for i in 0..n
        invariant
            c.len() == i,
            forall|j: int| 0 <= j < i ==> #[trigger] c@[j] is None,
    {
        c.push(None);
    }
    c
}

/// Counts every sample of one thread of a single-image profile.
fn count_single_thread(
    leaf: &mut CountTable<String>,
    all: &mut CountTable<String>,
    addr: &mut CountTable<String>,
    thread: &Thread,
    names: &Vec<String>,
    flags: &Vec<bool>,
    cpu_weighted: bool,
) -> (r: Result<(), ParseError>)
    requires
        old(leaf).wf(),
        old(all).wf(),
        old(addr).wf(),
        old(all)@ == old(addr)@,
        names.len() == flags.len(),
    ensures
        final(leaf).wf(),
        final(all).wf(),
        final(addr).wf(),
        ({
            let spec_r = single_samples_spec(
                SingleModel { leaf: old(leaf)@, all: old(all)@, addr: old(addr)@ },
                thread,
                names_view(names@),
                flags@,
                cpu_weighted,
                thread.samples.stack@.len(),
            );
            match r {
                Ok(_) => spec_r == Ok::<SingleModel, ParseError>(
                    SingleModel { leaf: final(leaf)@, all: final(all)@, addr: final(addr)@ },
                ) && final(all)@ == final(addr)@,
                Err(e) => spec_r == Err::<SingleModel, ParseError>(e),
            }
        }),
        r is Ok ==> total_of(final(leaf)) == total_of(old(leaf)) + single_self_weight(
            thread,
            names_view(names@),
            flags@,
            cpu_weighted,
            thread.samples.stack@.len(),
        ),
{
    let ghost old_total = total_of(leaf);
    let ghost m0 = SingleModel { leaf: leaf@, all: all@, addr: addr@ };
    let ghost nv = names_view(names@);
    let nf = names.len();
    let mut leaf_cache = empty_cache(nf);
    let mut all_cache = empty_cache(nf);
    let mut addr_cache = empty_cache(nf);
    let weights = SampleWeights::new(&thread.samples, cpu_weighted);
    let n = thread.samples.stack.len();
    for i in 0..n
        invariant
            n == thread.samples.stack@.len(),
            nf == names.len() == flags.len(),
            nv == names_view(names@),
            m0 == (SingleModel { leaf: old(leaf)@, all: old(all)@, addr: old(addr)@ }),
            match weights.deltas {
                Some(d) => deltas_spec(&thread.samples, cpu_weighted) == Some(d@),
                None => deltas_spec(&thread.samples, cpu_weighted) is None,
            },
            leaf.wf(),
            all.wf(),
            addr.wf(),
            all@ == addr@,
            cache_ok(leaf, leaf_cache@, nv),
            cache_ok(all, all_cache@, nv),
            cache_ok(addr, addr_cache@, nv),
            single_samples_spec(m0, thread, nv, flags@, cpu_weighted, i as nat) == Ok::<
                SingleModel,
                ParseError,
            >(SingleModel { leaf: leaf@, all: all@, addr: addr@ }),
            old_total == total_of(old(leaf)),
            total_of(leaf) == old_total + single_self_weight(thread, nv, flags@, cpu_weighted, i as nat),
    {
        let ghost m1 = SingleModel { leaf: leaf@, all: all@, addr: addr@ };
        match thread.samples.stack[i] {
            None => {},
            Some(s) => {
                let frames = match walk_stack(thread, s, None) {
                    Ok(frames) => frames,
                    Err(e) => {
                        proof {
                            lemma_single_samples_err(
                                m0,
                                thread,
                                nv,
                                flags@,
                                cpu_weighted,
                                (i + 1) as nat,
                                n as nat,
                            );
                        }
                        return Err(e);
                    },
                };
                let w = weights.get(i);
                assert(w == weight_spec(&thread.samples, cpu_weighted, i as int));
                match count_single_sample(
                    leaf,
                    all,
                    addr,
                    &mut leaf_cache,
                    &mut all_cache,
                    &mut addr_cache,
                    &frames,
                    names,
                    flags,
                    w,
                ) {
                    Ok(_) => {},
                    Err(e) => {
                        proof {
                            lemma_single_samples_err(
                                m0,
                                thread,
                                nv,
                                flags@,
                                cpu_weighted,
                                (i + 1) as nat,
                                n as nat,
                            );
                        }
                        return Err(e);
                    },
                }
            },
        }
    }
    Ok(())
}

proof fn lemma_single_threads_err(
    p: &Profile,
    target_libs: Seq<bool>,
    cpu_weighted: bool,
    i: nat,
    n: nat,
)
    requires
        i <= n,
        single_threads_spec(p, target_libs, cpu_weighted, i) is Err,
    ensures
        single_threads_spec(p, target_libs, cpu_weighted, n) == single_threads_spec(
            p,
            target_libs,
            cpu_weighted,
            i,
        ),
    decreases n - i,
{
    if i < n {
        lemma_single_threads_err(p, target_libs, cpu_weighted, i, (n - 1) as nat);
    }
}

/// The target flags of the profile's images (see `build_target_lib_flags`).
pub open spec fn target_libs_spec(
    libs: Seq<Lib>,
    binary: Seq<char>,
    lib_canonicals: Seq<Option<String>>,
    binary_canonical: Option<Seq<char>>,
) -> Seq<bool> {
    Seq::new(
        libs.len(),
        |i: int| lib_is_target_spec(&libs[i], binary, lib_canonicals[i], binary_canonical),
    )
}

/// Counts a single-image profile: for every sample, walks its stack from the
/// leaf; every frame of the target binary counts towards TOTAL (and towards
/// the address counts), the first one met towards SELF.  `lib_canonicals`
/// and `binary_canonical` are the canonical paths of the images and of the
/// binary, where the file system resolved them.
pub fn parse_single_image_profile(
    profile: &Profile,
    binary: &str,
    lib_canonicals: &Vec<Option<String>>,
    binary_canonical: Option<&str>,
    cpu_weighted: bool,
) -> (r: Result<SingleCounts, ParseError>)
    requires
        lib_canonicals.len() == profile.libs.len(),
    ensures
        ({
            let spec_r = parse_single_spec(
                profile,
                target_libs_spec(
                    profile.libs@,
                    binary@,
                    lib_canonicals@,
                    opt_str_view(binary_canonical),
                ),
                cpu_weighted,
            );
            match r {
                Ok(c) => c.wf() && spec_r == Ok::<SingleModel, ParseError>(c.model()) && total_of(
                    &c.leaf,
                ) == single_profile_self_weight(
                    profile,
                    target_libs_spec(
                        profile.libs@,
                        binary@,
                        lib_canonicals@,
                        opt_str_view(binary_canonical),
                    ),
                    cpu_weighted,
                    profile.threads@.len(),
                ),
                Err(e) => spec_r == Err::<SingleModel, ParseError>(e),
            }
        }),
{
    let target_libs = build_target_lib_flags(&profile.libs, binary, lib_canonicals, binary_canonical);
    let ghost tl = target_libs_spec(
        profile.libs@,
        binary@,
        lib_canonicals@,
        opt_str_view(binary_canonical),
    );
    assert(target_libs@ == tl);
    let mut leaf: CountTable<String> = CountTable::new();
    let mut all: CountTable<String> = CountTable::new();
    let mut addr: CountTable<String> = CountTable::new();
    let n = profile.threads.len();
    assert(single_threads_spec(profile, tl, cpu_weighted, 0) == Ok::<SingleModel, ParseError>(
        SingleModel { leaf: leaf@, all: all@, addr: addr@ },
    ));
    for ti in 0..n
        invariant
            n == profile.threads@.len(),
            target_libs@ == tl,
            tl == target_libs_spec(
                profile.libs@,
                binary@,
                lib_canonicals@,
                opt_str_view(binary_canonical),
            ),
            leaf.wf(),
            all.wf(),
            addr.wf(),
            all@ == addr@,
            single_threads_spec(profile, tl, cpu_weighted, ti as nat) == Ok::<
                SingleModel,
                ParseError,
            >(SingleModel { leaf: leaf@, all: all@, addr: addr@ }),
            total_of(&leaf) == single_profile_self_weight(profile, tl, cpu_weighted, ti as nat),
    {
        let thread = &profile.threads[ti];
        if thread.samples.stack.len() > 0 {
            let names = match build_frame_names(thread) {
                Ok(names) => names,
                Err(e) => {
                    proof {
                        lemma_single_threads_err(profile, tl, cpu_weighted, (ti + 1) as nat, n as nat);
                    }
                    return Err(e);
                },
            };
            let flags = match build_target_frame_flags(thread, &target_libs) {
                Ok(flags) => flags,
                Err(e) => {
                    proof {
                        lemma_single_threads_err(profile, tl, cpu_weighted, (ti + 1) as nat, n as nat);
                    }
                    return Err(e);
                },
            };
            match count_single_thread(&mut leaf, &mut all, &mut addr, thread, &names, &flags, cpu_weighted) {
                Ok(_) => {},
                Err(e) => {
                    proof {
                        lemma_single_threads_err(profile, tl, cpu_weighted, (ti + 1) as nat, n as nat);
                    }
                    return Err(e);
                },
            }
        }
    }
    Ok(SingleCounts { leaf, all, addr })
}

/// A successful walk meets at least one frame, each below the bound.
pub proof fn lemma_walk_ok(t: &Thread, start: usize, s: int, fuel: nat, bound: Option<nat>)
    requires
        walk_spec(t, start, s, fuel, bound) is Ok,
    ensures
        walk_spec(t, start, s, fuel, bound)->Ok_0.len() > 0,
        bound matches Some(b) ==> forall|i: int|
            0 <= i < walk_spec(t, start, s, fuel, bound)->Ok_0.len() ==> (#[trigger] walk_spec(
                t,
                start,
                s,
                fuel,
                bound,
            )->Ok_0[i]) < b,
    decreases fuel,
{
    if let Some(next) = stack_prefix_spec(t, s) {
        if fuel > 0 {
            lemma_walk_ok(t, start, next as int, (fuel - 1) as nat, bound);
            let f = frame_index_spec(t, s)->Ok_0;
            let rest = walk_spec(t, start, next as int, (fuel - 1) as nat, bound)->Ok_0;
            assert forall|i: int| 0 <= i < rest.len() + 1 implies #[trigger] (seq![f] + rest)[i] == if i
                == 0 {
                f
            } else {
                rest[i - 1]
            } by {}
        }
    }
}

/// Counts of a multi-image profile, by image and raw frame name.
pub struct MixedCounts {
    /// SELF counts: the leaf frame of each sample.
    pub leaf: CountTable<MixedKey>,
    /// TOTAL counts: every frame of every sample.
    pub all: CountTable<MixedKey>,
}

/// The two count maps of a multi-image profile.
#[verifier::ext_equal]
pub struct MixedModel {
    pub leaf: Map<(Option<Seq<char>>, Seq<char>), nat>,
    pub all: Map<(Option<Seq<char>>, Seq<char>), nat>,
}

impl MixedCounts {
    pub open spec fn wf(&self) -> bool {
        self.leaf.wf() && self.all.wf()
    }

    pub open spec fn model(&self) -> MixedModel {
        MixedModel { leaf: self.leaf@, all: self.all@ }
    }
}

/// One sample whose walk met the frame keys `ks` (leaf first), with weight
/// `w`: the leaf counts towards SELF, every frame towards TOTAL.
pub open spec fn mixed_sample_spec(
    m: MixedModel,
    ks: Seq<(Option<Seq<char>>, Seq<char>)>,
    w: nat,
) -> Result<MixedModel, ParseError> {
    let leaf = if ks.len() > 0 {
        add_one(m.leaf, ks[0], w)
    } else {
        m.leaf
    };
    let all = add_each(m.all, ks, w);
    if fits(leaf) && fits(all) {
        Ok(MixedModel { leaf, all })
    } else {
        Err(ParseError::CountOverflow)
    }
}

/// The keys of the frames `frames`.
pub open spec fn keys_of(
    frames: Seq<usize>,
    keys: Seq<(Option<Seq<char>>, Seq<char>)>,
) -> Seq<(Option<Seq<char>>, Seq<char>)> {
    frames.map_values(|f: usize| keys[f as int])
}

/// The first `n` samples of `t` counted into `m`.
pub open spec fn mixed_samples_spec(
    m: MixedModel,
    t: &Thread,
    keys: Seq<(Option<Seq<char>>, Seq<char>)>,
    cpu_weighted: bool,
    n: nat,
) -> Result<MixedModel, ParseError>
    decreases n,
{
    if n == 0 {
        Ok(m)
    } else {
        match mixed_samples_spec(m, t, keys, cpu_weighted, (n - 1) as nat) {
            Err(e) => Err(e),
            Ok(m1) => match t.samples.stack@[n - 1] {
                None => Ok(m1),
                Some(s) => match sample_frames_spec(t, s, Some(keys.len())) {
                    Err(e) => Err(e),
                    Ok(frames) => mixed_sample_spec(
                        m1,
                        keys_of(frames, keys),
                        weight_spec(&t.samples, cpu_weighted, n - 1) as nat,
                    ),
                },
            },
        }
    }
}

/// Thread `t` counted into `m`: threads without samples are skipped; the
/// frame keys are computed before any sample.
pub open spec fn mixed_thread_spec(m: MixedModel, t: &Thread, libs: Seq<Lib>, cpu_weighted: bool) -> Result<
    MixedModel,
    ParseError,
> {
    if t.samples.stack@.len() == 0 {
        Ok(m)
    } else {
        match frame_keys_spec(t, libs) {
            Err(e) => Err(e),
            Ok(keys) => mixed_samples_spec(m, t, keys, cpu_weighted, t.samples.stack@.len()),
        }
    }
}

/// No counts yet.
pub open spec fn empty_mixed_model() -> MixedModel {
    MixedModel { leaf: Map::empty(), all: Map::empty() }
}

/// The first `n` threads of `p` counted.
pub open spec fn mixed_threads_spec(p: &Profile, cpu_weighted: bool, n: nat) -> Result<
    MixedModel,
    ParseError,
>
    decreases n,
{
    if n == 0 {
        Ok(empty_mixed_model())
    } else {
        match mixed_threads_spec(p, cpu_weighted, (n - 1) as nat) {
            Err(e) => Err(e),
            Ok(m) => mixed_thread_spec(m, &p.threads@[n - 1], p.libs@, cpu_weighted),
        }
    }
}

/// The counts of a multi-image profile.
pub open spec fn parse_mixed_spec(p: &Profile, cpu_weighted: bool) -> Result<MixedModel, ParseError> {
    mixed_threads_spec(p, cpu_weighted, p.threads@.len())
}

/// The weight that the first `n` samples of `t` add to SELF in a
/// multi-image profile: every sample with a stack counts.
pub open spec fn mixed_self_weight(t: &Thread, cpu_weighted: bool, n: nat) -> nat
    decreases n,
{
    if n == 0 {
        0
    } else {
        mixed_self_weight(t, cpu_weighted, (n - 1) as nat) + if t.samples.stack@[n - 1] is Some {
            weight_spec(&t.samples, cpu_weighted, n - 1) as nat
        } else {
            0
        }
    }
}

/// The weight that the first `n` threads of `p` add to SELF in a
/// multi-image profile.
pub open spec fn mixed_profile_self_weight(p: &Profile, cpu_weighted: bool, n: nat) -> nat
    decreases n,
{
    if n == 0 {
        0
    } else {
        let t = &p.threads@[n - 1];
        mixed_profile_self_weight(p, cpu_weighted, (n - 1) as nat) + mixed_self_weight(
            t,
            cpu_weighted,
            t.samples.stack@.len(),
        )
    }
}

/// Counts one sample of a multi-image profile.
fn count_mixed_sample(
    leaf: &mut CountTable<MixedKey>,
    all: &mut CountTable<MixedKey>,
    leaf_cache: &mut Vec<Option<usize>>,
    all_cache: &mut Vec<Option<usize>>,
    frames: &Vec<usize>,
    keys: &Vec<MixedKey>,
    w: Count,
) -> (r: Result<(), ParseError>)
    requires
        old(leaf).wf(),
        old(all).wf(),
        frames.len() > 0,
        forall|i: int| 0 <= i < frames.len() ==> #[trigger] frames@[i] < keys.len(),
        cache_ok(old(leaf), old(leaf_cache)@, keys_view(keys@)),
        cache_ok(old(all), old(all_cache)@, keys_view(keys@)),
    ensures
        final(leaf).wf(),
        final(all).wf(),
        cache_ok(final(leaf), final(leaf_cache)@, keys_view(keys@)),
        cache_ok(final(all), final(all_cache)@, keys_view(keys@)),
        ({
            let spec_r = mixed_sample_spec(
                MixedModel { leaf: old(leaf)@, all: old(all)@ },
                keys_of(frames@, keys_view(keys@)),
                w as nat,
            );
            match r {
                Ok(_) => spec_r == Ok::<MixedModel, ParseError>(
                    MixedModel { leaf: final(leaf)@, all: final(all)@ },
                ),
                Err(e) => spec_r == Err::<MixedModel, ParseError>(e),
            }
        }),
        r is Ok ==> total_of(final(leaf)) == total_of(old(leaf)) + w,
{
    let ghost kv = keys_view(keys@);
    let ghost ks = keys_of(frames@, kv);
    let ghost old_leaf = leaf@;
    let ghost old_all = all@;
    let f0 = frames[0];
    assert(ks[0] == kv[f0 as int]);
    assert(kv[f0 as int] == keys@[f0 as int]@);
    let i0 = cached_slot(leaf, leaf_cache, keys, f0);
    let ghost slot_leaf = leaf@;
    assert(slot_leaf[ks[0]] == count_in(old_leaf, ks[0]));
    if !leaf.add_at(i0, w) {
        proof {
            let l2 = add_one(old_leaf, ks[0], w as nat);
            assert(count_in(old_leaf, ks[0]) + w > Count::MAX);
            assert(l2.contains_key(ks[0]));
            assert(l2[ks[0]] > Count::MAX);
            assert(!fits(l2));
        }
        return Err(ParseError::CountOverflow);
    }
    proof {
        leaf.lemma_fits();
    }
    let ghost leaf_total = total_of(leaf);
    assert(leaf_total == total_of(old(leaf)) + w);
    let n = frames.len();
    assert(ks.take(0) == Seq::<(Option<Seq<char>>, Seq<char>)>::empty());
    for j in 0..n
        invariant
            n == frames.len(),
            forall|i: int| 0 <= i < frames.len() ==> #[trigger] frames@[i] < keys.len(),
            kv == keys_view(keys@),
            ks == keys_of(frames@, kv),
            old_all == old(all)@,
            old_leaf == old(leaf)@,
            all.wf(),
            all@ == add_each(old_all, ks.take(j as int), w as nat),
            cache_ok(all, all_cache@, kv),
            leaf.wf(),
            cache_ok(leaf, leaf_cache@, kv),
            ks.len() > 0,
            leaf@ == add_one(old_leaf, ks[0], w as nat),
            fits(leaf@),
            leaf_total == total_of(old(leaf)) + w,
            total_of(leaf) == leaf_total,
    {
        let f = frames[j];
        let ghost k = kv[f as int];
        assert(ks[j as int] == k);
        assert(keys@[f as int]@ == k);
        assert(ks.take(j + 1).drop_last() == ks.take(j as int));
        let i = cached_slot(all, all_cache, keys, f);
        if !all.add_at(i, w) {
            proof {
                lemma_add_each_prefix_le(old_all, ks, w as nat, j + 1, k);
                let full = add_each(old_all, ks, w as nat);
                assert(count_in(full, k) > Count::MAX);
                assert(full.contains_key(k));
                assert(!fits(full));
            }
            return Err(ParseError::CountOverflow);
        }
    }
    proof {
        assert(ks.take(n as int) == ks);
        all.lemma_fits();
    }
    Ok(())
}

proof fn lemma_mixed_samples_err(
    m: MixedModel,
    t: &Thread,
    keys: Seq<(Option<Seq<char>>, Seq<char>)>,
    cpu_weighted: bool,
    i: nat,
    n: nat,
)
    requires
        i <= n,
        mixed_samples_spec(m, t, keys, cpu_weighted, i) is Err,
    ensures
        mixed_samples_spec(m, t, keys, cpu_weighted, n) == mixed_samples_spec(
            m,
            t,
            keys,
            cpu_weighted,
            i,
        ),
    decreases n - i,
{
    if i < n {
        lemma_mixed_samples_err(m, t, keys, cpu_weighted, i, (n - 1) as nat);
    }
}

/// Counts every sample of one thread of a multi-image profile.
fn count_mixed_thread(
    leaf: &mut CountTable<MixedKey>,
    all: &mut CountTable<MixedKey>,
    thread: &Thread,
    keys: &Vec<MixedKey>,
    cpu_weighted: bool,
) -> (r: Result<(), ParseError>)
    requires
        old(leaf).wf(),
        old(all).wf(),
    ensures
        final(leaf).wf(),
        final(all).wf(),
        ({
            let spec_r = mixed_samples_spec(
                MixedModel { leaf: old(leaf)@, all: old(all)@ },
                thread,
                keys_view(keys@),
                cpu_weighted,
                thread.samples.stack@.len(),
            );
            match r {
                Ok(_) => spec_r == Ok::<MixedModel, ParseError>(
                    MixedModel { leaf: final(leaf)@, all: final(all)@ },
                ),
                Err(e) => spec_r == Err::<MixedModel, ParseError>(e),
            }
        }),
        r is Ok ==> total_of(final(leaf)) == total_of(old(leaf)) + mixed_self_weight(
            thread,
            cpu_weighted,
            thread.samples.stack@.len(),
        ),
{
    let ghost old_total = total_of(leaf);
    let ghost m0 = MixedModel { leaf: leaf@, all: all@ };
    let ghost kv = keys_view(keys@);
    let nk = keys.len();
    assert(kv.len() == nk);
    let mut leaf_cache = empty_cache(nk);
    let mut all_cache = empty_cache(nk);
    let weights = SampleWeights::new(&thread.samples, cpu_weighted);
    let n = thread.samples.stack.len();
    for i in 0..n
        invariant
            n == thread.samples.stack@.len(),
            nk == keys.len() == kv.len(),
            kv == keys_view(keys@),
            m0 == (MixedModel { leaf: old(leaf)@, all: old(all)@ }),
            match weights.deltas {
                Some(d) => deltas_spec(&thread.samples, cpu_weighted) == Some(d@),
                None => deltas_spec(&thread.samples, cpu_weighted) is None,
            },
            leaf.wf(),
            all.wf(),
            cache_ok(leaf, leaf_cache@, kv),
            cache_ok(all, all_cache@, kv),
            mixed_samples_spec(m0, thread, kv, cpu_weighted, i as nat) == Ok::<
                MixedModel,
                ParseError,
            >(MixedModel { leaf: leaf@, all: all@ }),
            old_total == total_of(old(leaf)),
            total_of(leaf) == old_total + mixed_self_weight(thread, cpu_weighted, i as nat),
    {
        match thread.samples.stack[i] {
            None => {},
            Some(s) => {
                let frames = match walk_stack(thread, s, Some(nk)) {
                    Ok(frames) => frames,
                    Err(e) => {
                        proof {
                            lemma_mixed_samples_err(
                                m0,
                                thread,
                                kv,
                                cpu_weighted,
                                (i + 1) as nat,
                                n as nat,
                            );
                        }
                        return Err(e);
                    },
                };
                proof {
                    lemma_walk_ok(
                        thread,
                        s,
                        s as int,
                        thread.stack_table.frame@.len(),
                        Some(nk as nat),
                    );
                }
                let w = weights.get(i);
                match count_mixed_sample(
                    leaf,
                    all,
                    &mut leaf_cache,
                    &mut all_cache,
                    &frames,
                    keys,
                    w,
                ) {
                    Ok(_) => {},
                    Err(e) => {
                        proof {
                            lemma_mixed_samples_err(
                                m0,
                                thread,
                                kv,
                                cpu_weighted,
                                (i + 1) as nat,
                                n as nat,
                            );
                        }
                        return Err(e);
                    },
                }
            },
        }
    }
    Ok(())
}

proof fn lemma_mixed_threads_err(p: &Profile, cpu_weighted: bool, i: nat, n: nat)
    requires
        i <= n,
        mixed_threads_spec(p, cpu_weighted, i) is Err,
    ensures
        mixed_threads_spec(p, cpu_weighted, n) == mixed_threads_spec(p, cpu_weighted, i),
    decreases n - i,
{
    if i < n {
        lemma_mixed_threads_err(p, cpu_weighted, i, (n - 1) as nat);
    }
}

/// Counts a multi-image profile: every frame is keyed by its image and raw
/// name; the leaf of each sample counts towards SELF, every frame of it
/// towards TOTAL.
pub fn parse_mixed_image_profile(profile: &Profile, cpu_weighted: bool) -> (r: Result<
    MixedCounts,
    ParseError,
>)
    ensures
        match r {
            Ok(c) => c.wf() && parse_mixed_spec(profile, cpu_weighted) == Ok::<
                MixedModel,
                ParseError,
            >(c.model()) && total_of(&c.leaf) == mixed_profile_self_weight(
                profile,
                cpu_weighted,
                profile.threads@.len(),
            ),
            Err(e) => parse_mixed_spec(profile, cpu_weighted) == Err::<MixedModel, ParseError>(e),
        },
{
    let mut leaf: CountTable<MixedKey> = CountTable::new();
    let mut all: CountTable<MixedKey> = CountTable::new();
    let n = profile.threads.len();
    assert(mixed_threads_spec(profile, cpu_weighted, 0) == Ok::<MixedModel, ParseError>(
        MixedModel { leaf: leaf@, all: all@ },
    ));
    for ti in 0..n
        invariant
            n == profile.threads@.len(),
            leaf.wf(),
            all.wf(),
            mixed_threads_spec(profile, cpu_weighted, ti as nat) == Ok::<MixedModel, ParseError>(
                MixedModel { leaf: leaf@, all: all@ },
            ),
            total_of(&leaf) == mixed_profile_self_weight(profile, cpu_weighted, ti as nat),
    {
        let thread = &profile.threads[ti];
        if thread.samples.stack.len() > 0 {
            let keys = match build_frame_keys(thread, &profile.libs) {
                Ok(keys) => keys,
                Err(e) => {
                    proof {
                        lemma_mixed_threads_err(profile, cpu_weighted, (ti + 1) as nat, n as nat);
                    }
                    return Err(e);
                },
            };
            match count_mixed_thread(&mut leaf, &mut all, thread, &keys, cpu_weighted) {
                Ok(_) => {},
                Err(e) => {
                    proof {
                        lemma_mixed_threads_err(profile, cpu_weighted, (ti + 1) as nat, n as nat);
                    }
                    return Err(e);
                },
            }
        }
    }
    Ok(MixedCounts { leaf, all })
}

} // verus!
