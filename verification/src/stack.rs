//! The patch interpreter: a stack machine over live output ports, driven
//! step by step. Evaluating a patch consumes its tokens one at a time;
//! spawning a unit and connecting ports are effects the machine cannot
//! perform itself, so it hands each one to its driver as an [`Action`] and
//! waits for the outcome before it decides how to go on. When the tokens
//! are exhausted the machine re-pins the current top-of-stack group of
//! output ports to the safety sink and garbage-collects every unit that is
//! no longer reachable from the stack.

use vstd::prelude::*;
use crate::names::{port_name, spec_port_name, spec_unit_name, unit_name};
use crate::numeric::{is_numeric, is_numeric_token};
use crate::spawn::{spawn_args, spec_spawn_args};
use crate::text::{clone_strings, str_eq, views_of};
use crate::tokens::{slash_parts, slash_values, split_slash, tokenize, tokenize_text, word_of};
use crate::vocab::{Config, WordDefinition};

verus! {

/// How many nested compound-word expansions are tolerated before the
/// evaluation is aborted; guards against a cycle among compound words.
pub const MAX_EXPANSION_DEPTH: usize = 64;

/// One live output port on the stack, tagged with the unit it belongs to.
#[derive(Debug, PartialEq)]
pub struct Element {
    /// Slot index of the unit this port belongs to.
    pub idx: usize,
    /// Fully qualified name of the port.
    pub port: String,
}

/// Why an evaluation aborted its remaining tokens.
#[derive(Debug, PartialEq)]
pub enum EvalError {
    /// `swap` or `rot` on a stack with too few elements.
    StackUnderflow,
    /// The word has no definition.
    UndefinedWord { word: String },
    /// A primitive word found fewer elements on the stack than it has
    /// declared inputs.
    NotEnoughInputs { word: String },
    /// The driver could not spawn the unit process.
    SpawnFailed,
    /// The driver could not connect two ports.
    ConnectFailed,
    /// Compound words expanded deeper than [`MAX_EXPANSION_DEPTH`].
    TooDeep,
}

/// One effect the driver performs on the world outside the machine.
#[derive(Debug, PartialEq)]
pub enum Action {
    /// Spawn the unit process for slot `idx`: run `cmd` with `args`, wait
    /// until the client called `name` has `expected_ports` ports
    /// registered, then, if `probe_port` names a port, until that port
    /// accepts a probe connection.
    Spawn {
        idx: usize,
        cmd: String,
        args: Vec<String>,
        name: String,
        expected_ports: usize,
        probe_port: Option<String>,
    },
    /// Connect the source port to the destination port.
    Connect { src: String, dst: String },
    /// Remove every connection touching the port.
    DisconnectAll { port: String },
    /// Kill the unit process of slot `idx` and wait for it.
    Release { idx: usize },
}

/// What the machine asks of its driver after one step.
#[derive(Debug, PartialEq)]
pub enum EvalStep {
    /// Nothing to perform; call [`Stack::step`] again.
    Working,
    /// Perform the action, then report its outcome to [`Stack::resume`].
    Request(Action),
    /// The evaluation is over: perform the actions in order (their
    /// outcomes decide nothing any more); `error` reports why remaining
    /// tokens were aborted, if they were.
    Finish { actions: Vec<Action>, error: Option<EvalError> },
}

/// A sequence of tokens in evaluation, `pos` of them already consumed.
pub struct Frame {
    pub tokens: Vec<String>,
    pub pos: usize,
}

/// The wiring of one freshly spawned unit.
pub struct Wiring {
    /// The unit's slot.
    pub idx: usize,
    /// The unit's generated client name.
    pub name: String,
    /// Its declared input port names.
    pub inputs: Vec<String>,
    /// How many inputs are still to be popped and connected, beyond the
    /// one whose connection is currently outstanding.
    pub remaining: usize,
    /// Its declared output port names, pushed when wiring completes.
    pub outputs: Vec<String>,
}

/// Where an evaluation stands.
pub enum Phase {
    /// Consuming tokens.
    Scan,
    /// A spawn request is outstanding.
    AwaitSpawn(Wiring),
    /// A connect request for one popped input is outstanding.
    AwaitConnect(Wiring),
}

/// One evaluation in progress.
pub struct Job {
    /// Token sequences still to consume; the last is the innermost
    /// compound expansion and is consumed first.
    pub frames: Vec<Frame>,
    pub phase: Phase,
    /// The error that aborted the remaining tokens, if one did.
    pub error: Option<EvalError>,
}

/// The interpreter: unit table, dependency closures, the port stack, and
/// the evaluation in progress, if one is.
pub struct Stack {
    /// Fully qualified names of the safety sink's input ports, in order.
    sink_inputs: Vec<String>,
    /// Per-slot set of all unit slots that are direct or transitive inputs
    /// of the unit; `None` for a freed slot.
    connections: Vec<Option<Vec<usize>>>,
    /// Per-slot generated client name; `None` for a freed slot.
    modules: Vec<Option<String>>,
    /// The port stack.
    stack: Vec<Element>,
    job: Option<Job>,
}

/// `v` holds exactly the strings of `ts`, in order.
pub open spec fn strings_match(v: Seq<String>, ts: Seq<Seq<char>>) -> bool {
    v.len() == ts.len() && forall|i: int| 0 <= i < v.len() ==> (#[trigger] v[i])@ == ts[i]
}

/// Numeric sugar: a token that reads as a decimal number stands for the
/// same token prefixed with `constant/`.
pub open spec fn rewrite_token(t: Seq<char>) -> Seq<char> {
    if is_numeric_token(t) {
        seq!['c', 'o', 'n', 's', 't', 'a', 'n', 't', '/'] + t
    } else {
        t
    }
}

/// Whether unit slot `i` is reachable from the stack: some element's unit
/// is `i` itself or counts `i` among its transitive inputs.
pub open spec fn is_reachable(
    stack: Seq<Element>,
    conns: Seq<Option<Vec<usize>>>,
    i: usize,
) -> bool {
    exists|e: int|
        0 <= e < stack.len() && ((#[trigger] stack[e]).idx == i || (conns[stack[e].idx as int]
            matches Some(c) && c@.contains(i)))
}

/// The slots below `n` that are occupied but not reachable from the stack,
/// in ascending order: the units the collector frees.
pub open spec fn garbage_upto(
    units: Seq<Option<String>>,
    stack: Seq<Element>,
    conns: Seq<Option<Vec<usize>>>,
    n: int,
) -> Seq<usize>
    decreases n,
{
    if n <= 0 {
        seq![]
    } else {
        let g = garbage_upto(units, stack, conns, n - 1);
        if units[n - 1] is Some && !is_reachable(stack, conns, (n - 1) as usize) {
            g.push((n - 1) as usize)
        } else {
            g
        }
    }
}

/// How many elements at the top of the stack belong to the same unit as
/// the topmost one.
pub open spec fn group_len(s: Seq<Element>) -> nat
    decreases s.len(),
{
    if s.len() == 0 {
        0
    } else if s.len() >= 2 && s[s.len() - 2].idx == s[s.len() - 1].idx {
        1 + group_len(s.drop_last())
    } else {
        1
    }
}

/// The ports of the top group, topmost first: the output bus of the
/// current patch.
pub open spec fn top_group_ports(s: Seq<Element>) -> Seq<Seq<char>> {
    Seq::new(group_len(s), |i: int| s[s.len() - 1 - i].port@)
}

/// Well-formedness of one slot of the tables: alignment, and the
/// dependency closure acyclic (only earlier slots), live, and transitively
/// closed.
pub open spec fn slot_wf(units: Seq<Option<String>>, conns: Seq<Option<Vec<usize>>>, i: int) -> bool {
    &&& (units[i] is Some <==> conns[i] is Some)
    &&& conns[i] matches Some(c) ==> forall|t: int|
        0 <= t < c@.len() ==> {
            let j = (#[trigger] c@[t]) as int;
            &&& j < i
            &&& units[j] is Some
            &&& (conns[j] matches Some(cj) ==> forall|u: int|
                0 <= u < cj@.len() ==> c@.contains(#[trigger] cj@[u]))
        }
}

/// Well-formedness of the unit and dependency tables.
pub open spec fn tables_wf(units: Seq<Option<String>>, conns: Seq<Option<Vec<usize>>>) -> bool {
    &&& units.len() == conns.len()
    &&& forall|i: int| 0 <= i < units.len() ==> slot_wf(units, conns, i)
}

/// Every stack element points at a live unit slot.
pub open spec fn stack_elements_wf(stack: Seq<Element>, units: Seq<Option<String>>) -> bool {
    forall|e: int|
        0 <= e < stack.len() ==> (#[trigger] stack[e]).idx < units.len()
            && units[stack[e].idx as int] is Some
}

/// Well-formedness of an evaluation in progress.
pub open spec fn job_wf(j: Job, units: Seq<Option<String>>, stack: Seq<Element>) -> bool {
    &&& forall|f: int|
        0 <= f < j.frames@.len() ==> (#[trigger] j.frames@[f]).pos <= j.frames@[f].tokens@.len()
    &&& match j.phase {
        Phase::Scan => true,
        Phase::AwaitSpawn(w) => {
            &&& w.idx == units.len()
            &&& w.remaining == w.inputs@.len()
            &&& stack.len() >= w.inputs@.len()
        },
        Phase::AwaitConnect(w) => {
            &&& units.len() == w.idx + 1
            &&& units[w.idx as int] is Some
            &&& w.remaining < w.inputs@.len()
            &&& stack.len() >= w.remaining
            &&& forall|e: int| 0 <= e < stack.len() ==> (#[trigger] stack[e]).idx < w.idx
        },
    }
}

/// The connection requests that wiring a unit with the given declared
/// inputs issues, in order, when the stack is `s` at spawn time: the j-th
/// request connects the j-th popped element (topmost first) to the input
/// counted j-th from the end of the declaration.
pub open spec fn wiring_pairs(s: Seq<Element>, inputs: Seq<String>, name: Seq<char>) -> Seq<
    (Seq<char>, Seq<char>),
> {
    Seq::new(
        inputs.len(),
        |j: int|
            (s[s.len() - 1 - j].port@, spec_port_name(name, inputs[inputs.len() - 1 - j]@)),
    )
}

/// Reversal correctness: because inputs are consumed last first while the
/// stack pops top first, declared input `i` receives the element `i`-th
/// from the bottom of the popped block — a producer's outputs, pushed in
/// declaration order, meet a consumer's inputs in declaration order.
pub proof fn lemma_reversal_correctness(
    s: Seq<Element>,
    inputs: Seq<String>,
    name: Seq<char>,
    i: int,
)
    requires
        inputs.len() <= s.len(),
        0 <= i < inputs.len(),
    ensures
        wiring_pairs(s, inputs, name)[inputs.len() - 1 - i] == (
            s[s.len() - inputs.len() + i].port@,
            spec_port_name(name, inputs[i]@),
        ),
{
}

/// The machine's j-th connection request while wiring a unit is exactly
/// the j-th of [`wiring_pairs`]: at that point the stack has lost its top
/// `j` elements and `j` inputs are already consumed.
pub proof fn lemma_wiring_pair(s: Seq<Element>, inputs: Seq<String>, name: Seq<char>, j: int)
    requires
        inputs.len() <= s.len(),
        0 <= j < inputs.len(),
    ensures
        wiring_pairs(s, inputs, name)[j] == (
            s.take(s.len() - j).last().port@,
            spec_port_name(name, inputs[inputs.len() - 1 - j]@),
        ),
{
    assert(s.take(s.len() - j).last() == s[s.len() - 1 - j]);
}

/// Numeric sugar: a numeric token is rewritten to the same token prefixed
/// with `constant/`, and the rewritten token is left alone by the
/// rewriting — so a numeric token is evaluated exactly as its
/// `constant/`-prefixed form. Its word is `constant` and the whole
/// numeric text becomes the single positional value.
pub proof fn lemma_numeric_sugar(t: Seq<char>)
    requires
        is_numeric_token(t),
    ensures
        rewrite_token(t) == seq!['c', 'o', 'n', 's', 't', 'a', 'n', 't', '/'] + t,
        rewrite_token(rewrite_token(t)) == rewrite_token(t),
        word_of(rewrite_token(t)) == seq!['c', 'o', 'n', 's', 't', 'a', 'n', 't'],
        slash_values(rewrite_token(t)) == seq![t],
{
    let cp = seq!['c', 'o', 'n', 's', 't', 'a', 'n', 't', '/'];
    let ct = cp + t;
    crate::numeric::lemma_numeric_token_nonempty(t);
    crate::numeric::lemma_numeric_no_slash(t);
    // The rewritten token is not numeric itself: it starts with a letter.
    assert(ct[0] == 'c');
    assert(crate::numeric::strip_sign(ct) =~= ct);
    assert(crate::numeric::leading_digits(ct) == 0);
    assert(ct.skip(0) =~= ct);
    assert(!crate::numeric::is_plain_number(ct));
    assert(!crate::numeric::is_special_number(ct));
    assert(!is_numeric_token(ct));
    // Its word ends at the slash of the prefix.
    crate::tokens::lemma_until_slash_at(ct, 8);
    assert(word_of(ct) =~= seq!['c', 'o', 'n', 's', 't', 'a', 'n', 't']);
    // Everything after that slash is the numeric text, without further
    // slashes, so it is the single positional value.
    assert(ct.skip(9) =~= t);
    crate::tokens::lemma_until_slash_full(t);
    assert(slash_parts(t) =~= seq![t]);
    assert(slash_parts(ct) =~= seq![word_of(ct)] + slash_parts(t));
    assert(slash_values(ct) =~= seq![t]);
}

/// The collector frees exactly the occupied slots the stack cannot reach.
pub proof fn lemma_garbage_exact(
    units: Seq<Option<String>>,
    stack: Seq<Element>,
    conns: Seq<Option<Vec<usize>>>,
    n: int,
    i: usize,
)
    requires
        0 <= i < n <= usize::MAX,
    ensures
        garbage_upto(units, stack, conns, n).contains(i) <==> (units[i as int] is Some
            && !is_reachable(stack, conns, i)),
    decreases n,
{
    let g = garbage_upto(units, stack, conns, n - 1);
    let gn = garbage_upto(units, stack, conns, n);
    let pushed = units[n - 1] is Some && !is_reachable(stack, conns, (n - 1) as usize);
    if i < n - 1 {
        lemma_garbage_exact(units, stack, conns, n - 1, i);
    }
    if gn.contains(i) {
        let x = choose|x: int| 0 <= x < gn.len() && gn[x] == i;
        if pushed && x == g.len() {
            assert(gn[x] == (n - 1) as usize);
        } else {
            assert(g[x] == i);
            assert(g.contains(i));
            if i == n - 1 {
                lemma_garbage_bound(units, stack, conns, n - 1);
                assert(false);
            }
        }
    }
    if units[i as int] is Some && !is_reachable(stack, conns, i) {
        if i == n - 1 {
            assert(gn[gn.len() - 1] == i);
            assert(gn.contains(i));
        } else {
            assert(g.contains(i));
            let x = choose|x: int| 0 <= x < g.len() && g[x] == i;
            assert(gn[x] == i);
            assert(gn.contains(i));
        }
    }
}

/// Every slot the collector frees lies below the scanned bound.
pub proof fn lemma_garbage_bound(
    units: Seq<Option<String>>,
    stack: Seq<Element>,
    conns: Seq<Option<Vec<usize>>>,
    n: int,
)
    ensures
        forall|x: int|
            0 <= x < garbage_upto(units, stack, conns, n).len() ==> (#[trigger] garbage_upto(
                units,
                stack,
                conns,
                n,
            )[x]) < n,
    decreases n,
{
    if n > 0 {
        lemma_garbage_bound(units, stack, conns, n - 1);
        let g = garbage_upto(units, stack, conns, n - 1);
        let gn = garbage_upto(units, stack, conns, n);
        assert forall|x: int| 0 <= x < gn.len() implies gn[x] < n by {
            if x < g.len() {
                assert(gn[x] == g[x]);
            }
        }
    }
}

/// On a collected machine — every occupied slot reachable from the stack
/// — the collector frees nothing: evaluating an empty patch releases no
/// unit.
pub proof fn lemma_collected_no_garbage(
    units: Seq<Option<String>>,
    stack: Seq<Element>,
    conns: Seq<Option<Vec<usize>>>,
    n: int,
)
    requires
        forall|i: int|
            0 <= i < n ==> (units[i] is Some ==> is_reachable(stack, conns, i as usize)),
    ensures
        garbage_upto(units, stack, conns, n).len() == 0,
    decreases n,
{
    if n > 0 {
        lemma_collected_no_garbage(units, stack, conns, n - 1);
    }
}

/// The empty patch has no tokens: evaluating it consumes nothing.
pub proof fn lemma_tokenize_empty(s: Seq<char>)
    requires
        s.len() == 0,
    ensures
        tokenize(s).len() == 0,
{
}

/// The unit and dependency tables and the sink are unchanged.
pub open spec fn same_tables(pre: Stack, post: Stack) -> bool {
    &&& post.units() == pre.units()
    &&& post.deps() == pre.deps()
    &&& post.sink() == pre.sink()
}

/// The whole graph state is unchanged: tables, sink, and stack.
pub open spec fn same_graph(pre: Stack, post: Stack) -> bool {
    &&& same_tables(pre, post)
    &&& post.elements() == pre.elements()
}

/// `frames` with the last cursor advanced past the token just read.
pub open spec fn advance(frames: Seq<Frame>) -> Seq<Frame> {
    let f = frames.last();
    frames.update(frames.len() - 1, Frame { tokens: f.tokens, pos: (f.pos + 1) as usize })
}

/// Whether the innermost frame still has a token to read.
pub open spec fn has_token(j: Job) -> bool {
    j.frames@.len() > 0 && j.frames@.last().pos < j.frames@.last().tokens@.len()
}

/// The token the innermost frame's cursor stands on.
pub open spec fn cur_token(j: Job) -> Seq<char> {
    j.frames@.last().tokens@[j.frames@.last().pos as int]@
}

/// The machine keeps scanning, with the given frames and error.
pub open spec fn scanning(post: Stack, frames: Seq<Frame>, err: Option<EvalError>) -> bool {
    post.job_state() matches Some(j) && j.frames@ == frames && j.phase is Scan && j.error == err
}

/// The evaluation aborted its remaining tokens: no frames are left and the
/// recorded error satisfies `err_ok`.
pub open spec fn aborted(post: Stack, err_ok: spec_fn(Option<EvalError>) -> bool) -> bool {
    post.job_state() matches Some(j) && j.frames@.len() == 0 && j.phase is Scan && err_ok(j.error)
}

/// What a primitive word leaves behind: the spawn request for the next
/// free slot, and the machine waiting for its outcome with the wiring data
/// it will need.
pub open spec fn spawn_request_post(
    pre: Stack,
    post: Stack,
    r: EvalStep,
    j: Job,
    t: Seq<char>,
    p: crate::vocab::PrimitiveWord,
) -> bool {
    let idx = pre.units().len() as usize;
    let nm = spec_unit_name(t, idx as nat);
    &&& same_graph(pre, post)
    &&& post.job_state() matches Some(j2) && {
        &&& j2.error == j.error
        &&& j2.frames@ == advance(j.frames@)
        &&& j2.phase matches Phase::AwaitSpawn(w) && {
            &&& w.idx == idx
            &&& w.name@ == nm
            &&& w.inputs@ == p.inputs@
            &&& w.remaining == p.inputs@.len()
            &&& w.outputs@ == p.outputs@
        }
    }
    &&& r matches EvalStep::Request(a) && a matches Action::Spawn {
        idx: aidx,
        cmd,
        args,
        name,
        expected_ports,
        probe_port,
    } && {
        &&& aidx == idx
        &&& cmd@ == p.cmd@
        &&& name@ == nm
        &&& strings_match(args@, spec_spawn_args(p, slash_values(t), nm))
        &&& expected_ports == p.inputs@.len() + p.outputs@.len()
        &&& (p.outputs@.len() == 0 ==> probe_port is None)
        &&& (p.outputs@.len() > 0 ==> (probe_port matches Some(pp) && pp@ == spec_port_name(
            nm,
            p.outputs@[0]@,
        )))
    }
}

/// The top group is never empty and never larger than the stack, it
/// consists of elements of the topmost unit, and it is maximal.
pub proof fn lemma_group_len_facts(s: Seq<Element>)
    requires
        s.len() > 0,
    ensures
        1 <= group_len(s) <= s.len(),
        forall|x: int| s.len() - group_len(s) <= x < s.len() ==> (#[trigger] s[x]).idx == s[s.len() - 1].idx,
        s.len() - group_len(s) > 0 ==> s[s.len() - group_len(s) - 1].idx != s[s.len() - 1].idx,
    decreases s.len(),
{
    if s.len() >= 2 && s[s.len() - 2].idx == s[s.len() - 1].idx {
        lemma_group_len_facts(s.drop_last());
        assert forall|x: int| s.len() - group_len(s) <= x < s.len() implies (#[trigger] s[x]).idx
            == s[s.len() - 1].idx by {
            if x < s.len() - 1 {
                assert(s.drop_last()[x] == s[x]);
            }
        }
    }
}

/// A unit reachable from the stack keeps every unit of its dependency
/// closure reachable: what the stack can still hear is never collected.
pub proof fn lemma_reachable_closed(
    stack: Seq<Element>,
    units: Seq<Option<String>>,
    conns: Seq<Option<Vec<usize>>>,
    i: usize,
    j: usize,
)
    requires
        tables_wf(units, conns),
        stack_elements_wf(stack, units),
        i < units.len(),
        is_reachable(stack, conns, i),
        conns[i as int] matches Some(c) && c@.contains(j),
    ensures
        is_reachable(stack, conns, j),
{
    let e = choose|e: int|
        0 <= e < stack.len() && ((#[trigger] stack[e]).idx == i || (conns[stack[e].idx as int]
            matches Some(c) && c@.contains(i)));
    if stack[e].idx == i {
        assert(conns[stack[e].idx as int] matches Some(c) && c@.contains(j));
    } else {
        let ce = conns[stack[e].idx as int]->Some_0@;
        assert(slot_wf(units, conns, stack[e].idx as int));
        let t = choose|t: int| 0 <= t < ce.len() && ce[t] == i;
        let cj = conns[i as int]->Some_0@;
        let u = choose|u: int| 0 <= u < cj.len() && cj[u] == j;
        assert(ce.contains(cj[u]));
    }
}

/// The evaluation finished: the current top group of output ports is to be
/// re-pinned to the sink (cycling over the sink inputs), every occupied
/// slot that the stack cannot reach any more was freed and is to be
/// released, and the machine is idle again.
pub open spec fn finish_post(
    units: Seq<Option<String>>,
    conns: Seq<Option<Vec<usize>>>,
    s: Seq<Element>,
    sinks: Seq<String>,
    post: Stack,
    r: EvalStep,
    err: Option<EvalError>,
) -> bool {
    let n = units.len() as int;
    let garbage = garbage_upto(units, s, conns, n);
    let k = group_len(s) as int;
    let repin = if s.len() > 0 {
        2 * (sinks.len() as int)
    } else {
        0
    };
    &&& !post.busy()
    &&& post.elements() == s
    &&& post.sink() == sinks
    &&& post.units().len() == n
    &&& post.deps().len() == n
    &&& forall|i: int|
        0 <= i < n ==> if is_reachable(s, conns, i as usize) {
            post.units()[i] == units[i] && post.deps()[i] == conns[i]
        } else {
            post.units()[i] is None && post.deps()[i] is None
        }
    &&& r matches EvalStep::Finish { actions, error } && {
        &&& error == err
        &&& actions@.len() == repin + garbage.len()
        &&& (s.len() > 0 ==> forall|x: int|
            0 <= x < sinks.len() ==> ((#[trigger] actions@[x]) matches Action::DisconnectAll {
                port,
            } && port@ == sinks[x]@))
        &&& (s.len() > 0 ==> forall|x: int|
            0 <= x < sinks.len() ==> ((#[trigger] actions@[sinks.len() + x]) matches Action::Connect {
                src,
                dst,
            } && src@ == top_group_ports(s)[x % k] && dst@ == sinks[x]@))
        &&& forall|x: int|
            0 <= x < garbage.len() ==> ((#[trigger] actions@[repin + x]) matches Action::Release {
                idx,
            } && idx == garbage[x])
    }
}

/// The unit's declared outputs were pushed onto the stack, in declaration
/// order, each tagged with the unit's slot and fully qualified.
pub open spec fn outputs_pushed(
    pre_elems: Seq<Element>,
    post_elems: Seq<Element>,
    idx: usize,
    name: Seq<char>,
    outputs: Seq<String>,
) -> bool {
    &&& post_elems.len() == pre_elems.len() + outputs.len()
    &&& forall|i: int| 0 <= i < pre_elems.len() ==> post_elems[i] == pre_elems[i]
    &&& forall|i: int|
        0 <= i < outputs.len() ==> {
            let e = #[trigger] post_elems[pre_elems.len() + i];
            e.idx == idx && e.port@ == spec_port_name(name, outputs[i]@)
        }
}

/// One input of `w` was consumed: the top element was popped, its closure
/// and its slot were added to the unit's closure (after `base`), and the
/// machine waits for the outcome of connecting the popped port to the
/// unit's input `w.inputs[w.remaining - 1]` — inputs are consumed last
/// first, so that a producer's outputs, pushed in declaration order, meet
/// a consumer's inputs in declaration order.
pub open spec fn wired_one(
    pre: Stack,
    post: Stack,
    r: EvalStep,
    j: Job,
    w: Wiring,
    base: Seq<usize>,
) -> bool {
    let e = pre.elements().last();
    &&& post.elements() == pre.elements().drop_last()
    &&& post.deps()[w.idx as int] matches Some(c) && c@ == base + pre.deps()[
        e.idx as int
    ]->Some_0@.push(e.idx)
    &&& post.job_state() matches Some(j2) && {
        &&& j2.frames@ == j.frames@
        &&& j2.error == j.error
        &&& j2.phase matches Phase::AwaitConnect(w2) && {
            &&& w2.idx == w.idx
            &&& w2.name == w.name
            &&& w2.inputs == w.inputs
            &&& w2.outputs == w.outputs
            &&& w2.remaining == w.remaining - 1
        }
    }
    &&& r matches EvalStep::Request(a) && a matches Action::Connect { src, dst } && src@ == e.port@
        && dst@ == spec_port_name(w.name@, w.inputs@[w.remaining - 1]@)
}

/// The machine went back to scanning with frames and error unchanged.
pub open spec fn back_to_scan(post: Stack, j: Job) -> bool {
    post.job_state() matches Some(j2) && j2.frames@ == j.frames@ && j2.error == j.error
        && j2.phase is Scan
}

/// What one token does, by case: the built-in stack operators, an
/// undefined word, a compound expansion, or a primitive word's spawn
/// request. `t` is the token after numeric rewriting, `w` its word.
pub open spec fn token_post(
    pre: Stack,
    post: Stack,
    r: EvalStep,
    j: Job,
    t: Seq<char>,
    w: Seq<char>,
    vocab: Map<Seq<char>, WordDefinition>,
) -> bool {
    let s = pre.elements();
    let n = s.len() as int;
    if w == "clear"@ {
        &&& r is Working
        &&& same_tables(pre, post)
        &&& post.elements() == Seq::<Element>::empty()
        &&& scanning(post, advance(j.frames@), j.error)
    } else if w == "pop"@ {
        &&& r is Working
        &&& same_tables(pre, post)
        &&& post.elements() == (if n > 0 {
            s.drop_last()
        } else {
            s
        })
        &&& scanning(post, advance(j.frames@), j.error)
    } else if w == "dup"@ {
        &&& r is Working
        &&& same_tables(pre, post)
        &&& post.elements() == (if n > 0 {
            s.push(s.last())
        } else {
            s
        })
        &&& scanning(post, advance(j.frames@), j.error)
    } else if w == "swap"@ {
        if n >= 2 {
            &&& r is Working
            &&& same_tables(pre, post)
            &&& post.elements() == s.update(n - 2, s[n - 1]).update(n - 1, s[n - 2])
            &&& scanning(post, advance(j.frames@), j.error)
        } else {
            &&& r is Working
            &&& same_graph(pre, post)
            &&& aborted(post, |e: Option<EvalError>| e matches Some(x) && x is StackUnderflow)
        }
    } else if w == "rot"@ {
        if n >= 3 {
            &&& r is Working
            &&& same_tables(pre, post)
            &&& post.elements() == s.update(n - 3, s[n - 2]).update(n - 2, s[n - 1]).update(
                n - 1,
                s[n - 3],
            )
            &&& scanning(post, advance(j.frames@), j.error)
        } else {
            &&& r is Working
            &&& same_graph(pre, post)
            &&& aborted(post, |e: Option<EvalError>| e matches Some(x) && x is StackUnderflow)
        }
    } else if !vocab.contains_key(w) {
        &&& r is Working
        &&& same_graph(pre, post)
        &&& aborted(
            post,
            |e: Option<EvalError>|
                e matches Some(x) && x matches EvalError::UndefinedWord { word } && word@ == w,
        )
    } else {
        match vocab[w] {
            WordDefinition::Compound(c) => if j.frames@.len() >= MAX_EXPANSION_DEPTH {
                &&& r is Working
                &&& same_graph(pre, post)
                &&& aborted(post, |e: Option<EvalError>| e matches Some(x) && x is TooDeep)
            } else {
                &&& r is Working
                &&& same_graph(pre, post)
                &&& post.job_state() matches Some(j2) && {
                    &&& j2.phase is Scan
                    &&& j2.error == j.error
                    &&& j2.frames@.len() == advance(j.frames@).len() + 1
                    &&& j2.frames@.drop_last() == advance(j.frames@)
                    &&& j2.frames@.last().pos == 0
                    &&& strings_match(j2.frames@.last().tokens@, tokenize(c.expansion@))
                }
            },
            WordDefinition::Primitive(p) => if s.len() < p.inputs@.len() {
                &&& r is Working
                &&& same_graph(pre, post)
                &&& aborted(
                    post,
                    |e: Option<EvalError>|
                        e matches Some(x) && x matches EvalError::NotEnoughInputs { word } && word@
                            == w,
                )
            } else {
                spawn_request_post(pre, post, r, j, t, p)
            },
        }
    }
}

impl Stack {
    /// The unit table: one entry per slot, the generated client name of a
    /// live unit or `None` for a freed slot.
    pub closed spec fn units(self) -> Seq<Option<String>> {
        self.modules@
    }

    /// The dependency closures, aligned with [`Stack::units`].
    pub closed spec fn deps(self) -> Seq<Option<Vec<usize>>> {
        self.connections@
    }

    /// The port stack, bottom first.
    pub closed spec fn elements(self) -> Seq<Element> {
        self.stack@
    }

    /// The safety sink's input ports.
    pub closed spec fn sink(self) -> Seq<String> {
        self.sink_inputs@
    }

    /// The evaluation in progress.
    pub closed spec fn job_state(self) -> Option<Job> {
        self.job
    }

    /// Whether an evaluation is in progress.
    pub open spec fn busy(self) -> bool {
        self.job_state() is Some
    }

    /// Whether the machine waits for the outcome of a requested action.
    pub open spec fn awaiting(self) -> bool {
        self.job_state() matches Some(j) && !(j.phase is Scan)
    }

    /// Well-formedness of the whole machine state.
    pub open spec fn inv(self) -> bool {
        &&& tables_wf(self.units(), self.deps())
        &&& stack_elements_wf(self.elements(), self.units())
        &&& match self.job_state() {
            Option::None => true,
            Option::Some(j) => job_wf(j, self.units(), self.elements()),
        }
    }

    /// A fresh interpreter for a sink with the given input ports: no
    /// units, an empty stack, no evaluation in progress.
    pub fn new(sink_inputs: Vec<String>) -> (r: Stack)
        ensures
            r.inv(),
            !r.busy(),
            r.units() =~= Seq::<Option<String>>::empty(),
            r.deps() =~= Seq::<Option<Vec<usize>>>::empty(),
            r.elements() =~= Seq::<Element>::empty(),
            r.sink() == sink_inputs@,
    {
        Stack {
            sink_inputs,
            connections: Vec::new(),
            modules: Vec::new(),
            stack: Vec::new(),
            job: None,
        }
    }

    /// How many elements the stack holds.
    pub fn depth(&self) -> (r: usize)
        ensures
            r == self.elements().len(),
    {
        self.stack.len()
    }

    /// The element at position `i`, bottom first.
    pub fn element_at(&self, i: usize) -> (r: Element)
        requires
            i < self.elements().len(),
        ensures
            r == self.elements()[i as int],
    {
        let e = &self.stack[i];
        Element { idx: e.idx, port: e.port.clone() }
    }

    /// Whether an evaluation is in progress.
    pub fn is_busy(&self) -> (r: bool)
        ensures
            r == self.busy(),
    {
        self.job.is_some()
    }

    /// Whether the machine waits for the outcome of a requested action.
    pub fn needs_outcome(&self) -> (r: bool)
        ensures
            r == self.awaiting(),
    {
        match &self.job {
            None => false,
            Some(j) => match j.phase {
                Phase::Scan => false,
                Phase::AwaitSpawn(_) => true,
                Phase::AwaitConnect(_) => true,
            },
        }
    }

    /// How many unit slots exist, freed ones included.
    pub fn unit_count(&self) -> (r: usize)
        ensures
            r == self.units().len(),
    {
        self.modules.len()
    }

    /// Whether slot `i` holds a live unit.
    pub fn unit_alive(&self, i: usize) -> (r: bool)
        ensures
            r == (i < self.units().len() && self.units()[i as int] is Some),
    {
        i < self.modules.len() && self.modules[i].is_some()
    }

    /// Begins evaluating the patch text `s`: the machine tokenizes it and
    /// is then driven by [`Stack::step`] and [`Stack::resume`] until it
    /// reports [`EvalStep::Finish`]. Nothing else changes yet.
    pub fn eval(&mut self, s: &str)
        requires
            old(self).inv(),
            !old(self).busy(),
        ensures
            final(self).inv(),
            final(self).busy(),
            !final(self).awaiting(),
            final(self).units() == old(self).units(),
            final(self).deps() == old(self).deps(),
            final(self).elements() == old(self).elements(),
            final(self).sink() == old(self).sink(),
            final(self).job_state() matches Some(j) && {
                &&& j.frames@.len() == 1
                &&& j.frames@[0].pos == 0
                &&& strings_match(j.frames@[0].tokens@, tokenize(s@))
                &&& j.phase is Scan
                &&& j.error is None
            },
    {
        let tokens = tokenize_text(s);
        let mut frames: Vec<Frame> = Vec::new();
        frames.push(Frame { tokens, pos: 0 });
        self.job = Some(Job { frames, phase: Phase::Scan, error: None });
    }

    /// Consumes the next token (or leaves an exhausted expansion). The
    /// result either asks the driver to perform an action and report its
    /// outcome to [`Stack::resume`], or asks for another call.
    pub fn step(&mut self, config: &Config) -> (r: EvalStep)
        requires
            old(self).inv(),
            old(self).busy(),
            !old(self).awaiting(),
            config.words.wf(),
        ensures
            final(self).inv(),
            final(self).sink() == old(self).sink(),
            ({
                let j = old(self).job_state()->Some_0;
                if j.frames@.len() == 0 {
                    finish_post(
                        old(self).units(),
                        old(self).deps(),
                        old(self).elements(),
                        old(self).sink(),
                        *final(self),
                        r,
                        j.error,
                    )
                } else if !has_token(j) {
                    &&& r is Working
                    &&& same_graph(*old(self), *final(self))
                    &&& scanning(*final(self), j.frames@.drop_last(), j.error)
                } else {
                    token_post(
                        *old(self),
                        *final(self),
                        r,
                        j,
                        rewrite_token(cur_token(j)),
                        word_of(rewrite_token(cur_token(j))),
                        config.words@,
                    )
                }
            }),
    {
        let ghost j = old(self).job_state()->Some_0;
        let mut job = self.job.take().unwrap();
        if job.frames.len() == 0 {
            return self.finish(job);
        }
        let flen = job.frames.len();
        let fpos = job.frames[flen - 1].pos;
        if fpos == job.frames[flen - 1].tokens.len() {
            job.frames.pop();
            self.job = Some(job);
            return EvalStep::Working;
        }
        // Read the token and advance the cursor past it.
        let mut frame = job.frames.pop().unwrap();
        let raw = frame.tokens[fpos].clone();
        frame.pos = fpos + 1;
        job.frames.push(frame);
        proof {
            assert(raw@ == cur_token(j));
            assert(job.frames@ =~= advance(j.frames@));
        }
        // Numeric sugar: a number is the reserved word `constant`.
        let token = if is_numeric(raw.as_str()) {
            let mut t = String::from_str("constant/");
            t.append(raw.as_str());
            proof {
                reveal_strlit("constant/");
                assert("constant/"@ =~= seq!['c', 'o', 'n', 's', 't', 'a', 'n', 't', '/']);
            }
            t
        } else {
            raw
        };
        let ghost t_spec = rewrite_token(cur_token(j));
        proof {
            assert(token@ == t_spec);
        }
        let parts = split_slash(token.as_str());
        // Built-in stack operators come before any vocabulary lookup.
        if str_eq(parts[0].as_str(), "clear") {
            self.stack.clear();
            self.job = Some(job);
            return EvalStep::Working;
        }
        if str_eq(parts[0].as_str(), "pop") {
            self.stack.pop();
            self.job = Some(job);
            return EvalStep::Working;
        }
        if str_eq(parts[0].as_str(), "dup") {
            let n = self.stack.len();
            if n > 0 {
                let e = &self.stack[n - 1];
                let copy = Element { idx: e.idx, port: e.port.clone() };
                self.stack.push(copy);
            }
            self.job = Some(job);
            return EvalStep::Working;
        }
        if str_eq(parts[0].as_str(), "swap") {
            let n = self.stack.len();
            if n < 2 {
                job.error = Some(EvalError::StackUnderflow);
                job.frames.clear();
                self.job = Some(job);
                return EvalStep::Working;
            }
            let a = self.stack.pop().unwrap();
            let b = self.stack.pop().unwrap();
            self.stack.push(a);
            self.stack.push(b);
            proof {
                let s = old(self).elements();
                assert(self.stack@ =~= s.update(n - 2, s[n - 1]).update(n - 1, s[n - 2]));
            }
            self.job = Some(job);
            return EvalStep::Working;
        }
        if str_eq(parts[0].as_str(), "rot") {
            let n = self.stack.len();
            if n < 3 {
                job.error = Some(EvalError::StackUnderflow);
                job.frames.clear();
                self.job = Some(job);
                return EvalStep::Working;
            }
            let c = self.stack.pop().unwrap();
            let b = self.stack.pop().unwrap();
            let a = self.stack.pop().unwrap();
            self.stack.push(b);
            self.stack.push(c);
            self.stack.push(a);
            proof {
                let s = old(self).elements();
                assert(self.stack@ =~= s.update(n - 3, s[n - 2]).update(n - 2, s[n - 1]).update(
                    n - 1,
                    s[n - 3],
                ));
            }
            self.job = Some(job);
            return EvalStep::Working;
        }
        match config.words.lookup(parts[0].as_str()) {
            None => {
                job.error = Some(EvalError::UndefinedWord { word: parts[0].clone() });
                job.frames.clear();
                self.job = Some(job);
                EvalStep::Working
            },
            Some(WordDefinition::Compound(c)) => {
                if job.frames.len() >= MAX_EXPANSION_DEPTH {
                    job.error = Some(EvalError::TooDeep);
                    job.frames.clear();
                    self.job = Some(job);
                    return EvalStep::Working;
                }
                let toks = tokenize_text(c.expansion.as_str());
                job.frames.push(Frame { tokens: toks, pos: 0 });
                self.job = Some(job);
                proof {
                    assert(self.job_state()->Some_0.frames@.drop_last() =~= advance(j.frames@));
                }
                EvalStep::Working
            },
            Some(WordDefinition::Primitive(p)) => {
                let k = p.inputs.len();
                if self.stack.len() < k {
                    job.error = Some(EvalError::NotEnoughInputs { word: parts[0].clone() });
                    job.frames.clear();
                    self.job = Some(job);
                    return EvalStep::Working;
                }
                let idx = self.modules.len();
                let name = unit_name(token.as_str(), idx);
                let mut values: Vec<String> = Vec::new();
                let mut vi: usize = 1;
                while vi < parts.len()
                    invariant
                        1 <= vi <= parts@.len(),
                        values@.len() == vi - 1,
                        forall|x: int| 0 <= x < vi - 1 ==> (#[trigger] values@[x])@ == parts@[x
                            + 1]@,
                    decreases parts@.len() - vi,
                {
                    values.push(parts[vi].clone());
                    vi = vi + 1;
                }
                proof {
                    crate::tokens::lemma_slash_parts_shape(t_spec);
                    assert(views_of(values@) =~= slash_values(t_spec));
                }
                let args = spawn_args(p, &values, name.as_str());
                let expected = k + p.outputs.len();
                let probe = if p.outputs.len() > 0 {
                    Some(port_name(name.as_str(), p.outputs[0].as_str()))
                } else {
                    None
                };
                let inputs = clone_strings(&p.inputs);
                let outputs = clone_strings(&p.outputs);
                proof {
                    assert(inputs@ =~= p.inputs@);
                    assert(outputs@ =~= p.outputs@);
                }
                let w = Wiring { idx, name: name.clone(), inputs, remaining: k, outputs };
                job.phase = Phase::AwaitSpawn(w);
                self.job = Some(job);
                EvalStep::Request(
                    Action::Spawn {
                        idx,
                        cmd: p.cmd.clone(),
                        args,
                        name,
                        expected_ports: expected,
                        probe_port: probe,
                    },
                )
            },
        }
    }

    /// Reports the outcome of the requested action. A failure aborts the
    /// remaining tokens; a successful spawn admits the unit to its slot
    /// and begins consuming its inputs; a successful connection consumes
    /// the next input or, when all are wired, pushes the unit's outputs.
    pub fn resume(&mut self, ok: bool) -> (r: EvalStep)
        requires
            old(self).inv(),
            old(self).awaiting(),
        ensures
            final(self).inv(),
            final(self).busy(),
            final(self).sink() == old(self).sink(),
            ({
                let j = old(self).job_state()->Some_0;
                match j.phase {
                    Phase::Scan => true,
                    Phase::AwaitSpawn(w) => if !ok {
                        &&& r is Working
                        &&& same_graph(*old(self), *final(self))
                        &&& aborted(
                            *final(self),
                            |e: Option<EvalError>| e matches Some(x) && x is SpawnFailed,
                        )
                    } else {
                        &&& final(self).units() == old(self).units().push(Some(w.name))
                        &&& final(self).deps().len() == old(self).deps().len() + 1
                        &&& forall|i: int|
                            0 <= i < old(self).deps().len() ==> final(self).deps()[i] == old(
                                self,
                            ).deps()[i]
                        &&& if w.inputs@.len() == 0 {
                            &&& r is Working
                            &&& final(self).deps()[w.idx as int] matches Some(c) && c@
                                == Seq::<usize>::empty()
                            &&& outputs_pushed(
                                old(self).elements(),
                                final(self).elements(),
                                w.idx,
                                w.name@,
                                w.outputs@,
                            )
                            &&& back_to_scan(*final(self), j)
                        } else {
                            wired_one(*old(self), *final(self), r, j, w, Seq::<usize>::empty())
                        }
                    },
                    Phase::AwaitConnect(w) => if !ok {
                        &&& r is Working
                        &&& same_graph(*old(self), *final(self))
                        &&& aborted(
                            *final(self),
                            |e: Option<EvalError>| e matches Some(x) && x is ConnectFailed,
                        )
                    } else if w.remaining > 0 {
                        &&& final(self).units() == old(self).units()
                        &&& final(self).deps().len() == old(self).deps().len()
                        &&& forall|i: int|
                            0 <= i < old(self).deps().len() && i != w.idx ==> final(self).deps()[i]
                                == old(self).deps()[i]
                        &&& wired_one(
                            *old(self),
                            *final(self),
                            r,
                            j,
                            w,
                            old(self).deps()[w.idx as int]->Some_0@,
                        )
                    } else {
                        &&& r is Working
                        &&& same_tables(*old(self), *final(self))
                        &&& outputs_pushed(
                            old(self).elements(),
                            final(self).elements(),
                            w.idx,
                            w.name@,
                            w.outputs@,
                        )
                        &&& back_to_scan(*final(self), j)
                    },
                }
            }),
    {
        let ghost j = old(self).job_state()->Some_0;
        let job = self.job.take().unwrap();
        let Job { mut frames, phase, mut error } = job;
        match phase {
            Phase::Scan => vstd::pervasive::unreached(),
            Phase::AwaitSpawn(w) => {
                if !ok {
                    error = Some(EvalError::SpawnFailed);
                    frames.clear();
                    self.job = Some(Job { frames, phase: Phase::Scan, error });
                    return EvalStep::Working;
                }
                self.modules.push(Some(w.name.clone()));
                self.connections.push(Some(Vec::new()));
                proof {
                    let uold = old(self).units();
                    let cold = old(self).deps();
                    let unew = self.units();
                    let cnew = self.deps();
                    assert forall|i: int| 0 <= i < unew.len() implies slot_wf(unew, cnew, i) by {
                        if i < uold.len() {
                            assert(slot_wf(uold, cold, i));
                        }
                    }
                    assert(stack_elements_wf(self.elements(), unew));
                }
                if w.inputs.len() == 0 {
                    let ghost mid = *self;
                    self.push_outputs(w.idx, w.name.as_str(), &w.outputs);
                    self.job = Some(Job { frames, phase: Phase::Scan, error });
                    proof {
                        assert forall|e2: int| 0 <= e2 < self.elements().len() implies (#[trigger]
                        self.elements()[e2]).idx < self.units().len() && self.units()[self.elements()[e2].idx as int] is Some by {
                            if e2 < mid.elements().len() {
                                assert(self.elements()[e2] == mid.elements()[e2]);
                                assert(stack_elements_wf(mid.elements(), mid.units()));
                            } else {
                                let i = e2 - mid.elements().len();
                                assert(self.elements()[mid.elements().len() + i].idx == w.idx);
                            }
                        }
                    }
                    EvalStep::Working
                } else {
                    let ghost mid = *self;
                    let jb = Job { frames, phase: Phase::Scan, error };
                    let r = self.consume_input(jb, w);
                    proof {
                        assert forall|e2: int| 0 <= e2 < self.elements().len() implies (#[trigger]
                        self.elements()[e2]).idx < w.idx by {
                            assert(self.elements()[e2] == mid.elements()[e2]);
                            assert(stack_elements_wf(old(self).elements(), old(self).units()));
                            assert(old(self).elements()[e2].idx < old(self).units().len());
                        }
                    }
                    r
                }
            },
            Phase::AwaitConnect(w) => {
                if !ok {
                    error = Some(EvalError::ConnectFailed);
                    frames.clear();
                    self.job = Some(Job { frames, phase: Phase::Scan, error });
                    return EvalStep::Working;
                }
                if w.remaining > 0 {
                    proof {
                        assert(slot_wf(self.units(), self.deps(), w.idx as int));
                        assert(self.elements()[self.elements().len() - 1].idx < w.idx);
                    }
                    let jb = Job { frames, phase: Phase::Scan, error };
                    let r = self.consume_input(jb, w);
                    proof {
                        assert forall|e2: int| 0 <= e2 < self.elements().len() implies (#[trigger]
                        self.elements()[e2]).idx < w.idx by {
                            assert(self.elements()[e2] == old(self).elements()[e2]);
                        }
                    }
                    r
                } else {
                    let ghost mid = *self;
                    self.push_outputs(w.idx, w.name.as_str(), &w.outputs);
                    self.job = Some(Job { frames, phase: Phase::Scan, error });
                    proof {
                        assert forall|e2: int| 0 <= e2 < self.elements().len() implies (#[trigger]
                        self.elements()[e2]).idx < self.units().len() && self.units()[self.elements()[e2].idx as int] is Some by {
                            if e2 < mid.elements().len() {
                                assert(self.elements()[e2] == mid.elements()[e2]);
                                assert(stack_elements_wf(mid.elements(), mid.units()));
                            } else {
                                let i = e2 - mid.elements().len();
                                assert(self.elements()[mid.elements().len() + i].idx == w.idx);
                            }
                        }
                    }
                    EvalStep::Working
                }
            },
        }
    }

    /// Decides whether the stack can reach unit slot `q`.
    #[verifier::loop_isolation(false)]
    fn slot_reachable(&self, q: usize) -> (r: bool)
        requires
            tables_wf(self.units(), self.deps()),
            stack_elements_wf(self.elements(), self.units()),
        ensures
            r == is_reachable(self.elements(), self.deps(), q),
    {
        let m = self.stack.len();
        let mut e: usize = 0;
        while e < m
            invariant
                0 <= e <= m,
                forall|y: int|
                    0 <= y < e ==> !((#[trigger] self.elements()[y]).idx == q || (self.deps()[self.elements()[y].idx as int] matches Some(c)
                        && c@.contains(q))),
            decreases m - e,
        {
            let ei = self.stack[e].idx;
            if ei == q {
                return true;
            }
            match &self.connections[ei] {
                Some(d) => {
                    let dl = d.len();
                    let mut t: usize = 0;
                    while t < dl
                        invariant
                            0 <= t <= dl,
                            forall|y: int| 0 <= y < t ==> d@[y] != q,
                        decreases dl - t,
                    {
                        if d[t] == q {
                            proof {
                                assert(self.deps()[self.elements()[e as int].idx as int] matches Some(
                                    c,
                                ) && c@.contains(q));
                            }
                            return true;
                        }
                        t = t + 1;
                    }
                    proof {
                        assert(!self.deps()[ei as int]->Some_0@.contains(q));
                    }
                },
                None => {},
            }
            e = e + 1;
        }
        false
    }

    /// Builds the actions that re-pin the current top group to the sink:
    /// every sink input is first cleared, then the group's ports are
    /// connected to the sink inputs in order, cycling over the group when
    /// the sink has more inputs than the group has ports. An empty stack
    /// leaves the sink alone.
    #[verifier::loop_isolation(false)]
    fn repin_actions(&self) -> (acts: Vec<Action>)
        ensures
            self.elements().len() == 0 ==> acts@.len() == 0,
            self.elements().len() > 0 ==> {
                let k = group_len(self.elements()) as int;
                &&& acts@.len() == 2 * self.sink().len()
                &&& forall|x: int|
                    0 <= x < self.sink().len() ==> ((#[trigger] acts@[x]) matches Action::DisconnectAll {
                        port,
                    } && port@ == self.sink()[x]@)
                &&& forall|x: int|
                    0 <= x < self.sink().len() ==> ((#[trigger] acts@[self.sink().len() + x]) matches Action::Connect {
                        src,
                        dst,
                    } && src@ == top_group_ports(self.elements())[x % k] && dst@
                        == self.sink()[x]@)
            },
    {
        let mut actions: Vec<Action> = Vec::new();
        let n_stack = self.stack.len();
        if n_stack > 0 {
            // The maximal top run of elements of the topmost unit.
            let top_idx = self.stack[n_stack - 1].idx;
            let mut start: usize = n_stack - 1;
            while start > 0 && self.stack[start - 1].idx == top_idx
                invariant
                    0 <= start <= n_stack - 1,
                    n_stack == self.elements().len(),
                    top_idx == self.elements()[n_stack - 1].idx,
                    forall|y: int|
                        start <= y < n_stack ==> (#[trigger] self.elements()[y]).idx == top_idx,
                decreases start,
            {
                start = start - 1;
            }
            let k = n_stack - start;
            proof {
                lemma_group_len_facts(self.stack@);
                let gl = group_len(self.stack@) as int;
                if k < gl {
                    assert(self.elements()[start - 1].idx == top_idx);
                    assert(false);
                }
                if k > gl {
                    assert(self.elements()[n_stack - gl - 1].idx == top_idx);
                    assert(false);
                }
            }
            let s_len = self.sink_inputs.len();
            let mut x: usize = 0;
            while x < s_len
                invariant
                    0 <= x <= s_len,
                    actions@.len() == x,
                    forall|y: int|
                        0 <= y < x ==> ((#[trigger] actions@[y]) matches Action::DisconnectAll {
                            port,
                        } && port@ == self.sink()[y]@),
                decreases s_len - x,
            {
                actions.push(Action::DisconnectAll { port: self.sink_inputs[x].clone() });
                x = x + 1;
            }
            let mut x2: usize = 0;
            while x2 < s_len
                invariant
                    0 <= x2 <= s_len,
                    actions@.len() == s_len + x2,
                    forall|y: int|
                        0 <= y < s_len ==> ((#[trigger] actions@[y]) matches Action::DisconnectAll {
                            port,
                        } && port@ == self.sink()[y]@),
                    forall|y: int|
                        0 <= y < x2 ==> ((#[trigger] actions@[s_len + y]) matches Action::Connect {
                            src,
                            dst,
                        } && src@ == top_group_ports(self.elements())[y % (k as int)] && dst@
                            == self.sink()[y]@),
                decreases s_len - x2,
            {
                let src_pos = n_stack - 1 - (x2 % k);
                let src = self.stack[src_pos].port.clone();
                actions.push(Action::Connect { src, dst: self.sink_inputs[x2].clone() });
                proof {
                    assert(top_group_ports(self.elements())[(x2 % k) as int] == self.elements()[n_stack - 1 - ((x2 % k) as int)].port@);
                }
                x2 = x2 + 1;
            }
        }
        actions
    }

    /// Ends the evaluation: gathers the re-pin actions for the current top
    /// group, frees every unreachable occupied slot, and reports the
    /// actions and the recorded error.
    #[verifier::loop_isolation(false)]
    fn finish(&mut self, job: Job) -> (r: EvalStep)
        requires
            old(self).job_state() is None,
            tables_wf(old(self).units(), old(self).deps()),
            stack_elements_wf(old(self).elements(), old(self).units()),
        ensures
            final(self).inv(),
            finish_post(
                old(self).units(),
                old(self).deps(),
                old(self).elements(),
                old(self).sink(),
                *final(self),
                r,
                job.error,
            ),
    {
        let mut actions: Vec<Action> = self.repin_actions();
        let n = self.modules.len();
        let mut reach: Vec<bool> = Vec::new();
        let mut q: usize = 0;
        while q < n
            invariant
                0 <= q <= n,
                n == self.units().len(),
                tables_wf(self.units(), self.deps()),
                stack_elements_wf(self.elements(), self.units()),
                reach@.len() == q,
                forall|y: int|
                    0 <= y < q ==> reach@[y] == is_reachable(
                        self.elements(),
                        self.deps(),
                        y as usize,
                    ),
            decreases n - q,
        {
            let b = self.slot_reachable(q);
            reach.push(b);
            q = q + 1;
        }
        // Free what is unreachable, in ascending slot order.
        let ghost repin = actions@.len();
        let ghost acts0 = actions@;
        let mut i: usize = 0;
        while i < n
            invariant
                0 <= i <= n,
                n == old(self).units().len(),
                n == old(self).deps().len(),
                self.units().len() == n,
                self.deps().len() == n,
                self.elements() == old(self).elements(),
                self.sink() == old(self).sink(),
                self.job_state() is None,
                reach@.len() == n,
                forall|y: int|
                    0 <= y < n ==> reach@[y] == is_reachable(
                        old(self).elements(),
                        old(self).deps(),
                        y as usize,
                    ),
                forall|y: int|
                    i <= y < n ==> self.units()[y] == old(self).units()[y] && self.deps()[y] == old(
                        self,
                    ).deps()[y],
                forall|y: int|
                    0 <= y < i ==> (if is_reachable(
                        old(self).elements(),
                        old(self).deps(),
                        y as usize,
                    ) {
                        self.units()[y] == old(self).units()[y] && self.deps()[y] == old(
                            self,
                        ).deps()[y]
                    } else {
                        self.units()[y] is None && self.deps()[y] is None
                    }),
                actions@.len() == repin + garbage_upto(
                    old(self).units(),
                    old(self).elements(),
                    old(self).deps(),
                    i as int,
                ).len(),
                forall|y: int| 0 <= y < repin ==> actions@[y] == acts0[y],
                forall|x: int|
                    0 <= x < garbage_upto(
                        old(self).units(),
                        old(self).elements(),
                        old(self).deps(),
                        i as int,
                    ).len() ==> ((#[trigger] actions@[repin + x]) matches Action::Release { idx }
                        && idx == garbage_upto(
                        old(self).units(),
                        old(self).elements(),
                        old(self).deps(),
                        i as int,
                    )[x]),
            decreases n - i,
        {
            let ghost g_i = garbage_upto(
                old(self).units(),
                old(self).elements(),
                old(self).deps(),
                i as int,
            );
            let alive = self.modules[i].is_some();
            if alive && !reach[i] {
                self.modules[i] = None;
                self.connections[i] = None;
                actions.push(Action::Release { idx: i });
                proof {
                    assert(garbage_upto(
                        old(self).units(),
                        old(self).elements(),
                        old(self).deps(),
                        i + 1,
                    ) =~= g_i.push(i));
                    assert(actions@[repin + g_i.len() as int] == (Action::Release { idx: i }));
                }
            } else {
                proof {
                    assert(slot_wf(old(self).units(), old(self).deps(), i as int));
                    assert(garbage_upto(
                        old(self).units(),
                        old(self).elements(),
                        old(self).deps(),
                        i + 1,
                    ) =~= g_i);
                }
            }
            i = i + 1;
        }
        proof {
            let s = old(self).elements();
            let uold = old(self).units();
            let cold = old(self).deps();
            assert forall|ii: int| 0 <= ii < n implies slot_wf(self.units(), self.deps(), ii) by {
                assert(slot_wf(uold, cold, ii));
                if self.deps()[ii] is Some {
                    let c = self.deps()[ii]->Some_0@;
                    assert(is_reachable(s, cold, ii as usize));
                    assert forall|t: int| #![trigger c[t]] 0 <= t < c.len() implies {
                        let jj = c[t] as int;
                        &&& jj < ii
                        &&& self.units()[jj] is Some
                        &&& (self.deps()[jj] matches Some(cj) ==> forall|u: int|
                            0 <= u < cj@.len() ==> c.contains(#[trigger] cj@[u]))
                    } by {
                        let jj = c[t] as int;
                        assert(c.contains(c[t]));
                        lemma_reachable_closed(s, uold, cold, ii as usize, c[t]);
                    }
                }
            }
            assert forall|e2: int| 0 <= e2 < self.elements().len() implies (#[trigger]
            self.elements()[e2]).idx < self.units().len() && self.units()[self.elements()[e2].idx as int] is Some by {
                assert(stack_elements_wf(s, uold));
                assert(is_reachable(s, cold, s[e2].idx));
            }
        }
        let err = job.error;
        let r2 = EvalStep::Finish { actions, error: err };
        proof {
            // Carry the re-pin action facts over to the finished list: its
            // prefix is exactly what the re-pin pass built.
            let sinks = old(self).sink();
            let s = old(self).elements();
            let k = group_len(s) as int;
            if s.len() > 0 {
                assert forall|x: int| 0 <= x < sinks.len() implies ((#[trigger] r2->Finish_actions@[x]) matches Action::DisconnectAll {
                    port,
                } && port@ == sinks[x]@) by {
                    assert(r2->Finish_actions@[x] == acts0[x]);
                }
                assert forall|x: int| 0 <= x < sinks.len() implies ((#[trigger] r2->Finish_actions@[sinks.len() + x]) matches Action::Connect {
                    src,
                    dst,
                } && src@ == top_group_ports(s)[x % k] && dst@ == sinks[x]@) by {
                    assert(r2->Finish_actions@[sinks.len() + x] == acts0[sinks.len() + x]);
                }
            }
        }
        r2
    }

    /// Pushes the unit's declared outputs, fully qualified, onto the stack.
    fn push_outputs(&mut self, idx: usize, name: &str, outputs: &Vec<String>)
        requires
            old(self).job_state() is None,
        ensures
            outputs_pushed(
                old(self).elements(),
                final(self).elements(),
                idx,
                name@,
                outputs@,
            ),
            final(self).units() == old(self).units(),
            final(self).deps() == old(self).deps(),
            final(self).sink() == old(self).sink(),
            final(self).job_state() is None,
    {
        let mut oi: usize = 0;
        while oi < outputs.len()
            invariant
                0 <= oi <= outputs@.len(),
                self.job_state() is None,
                self.units() == old(self).units(),
                self.deps() == old(self).deps(),
                self.sink() == old(self).sink(),
                self.elements().len() == old(self).elements().len() + oi,
                forall|i: int|
                    0 <= i < old(self).elements().len() ==> self.elements()[i] == old(
                        self,
                    ).elements()[i],
                forall|i: int|
                    0 <= i < oi ==> {
                        let e = #[trigger] self.elements()[old(self).elements().len() + i];
                        e.idx == idx && e.port@ == spec_port_name(name@, outputs@[i]@)
                    },
            decreases outputs@.len() - oi,
        {
            let p = port_name(name, outputs[oi].as_str());
            self.stack.push(Element { idx, port: p });
            oi = oi + 1;
        }
    }

    /// Pops the top element, adds its closure and slot to the closure of
    /// the unit in the last slot, and requests the connection of the
    /// popped port to the unit's next input, counted from the end.
    fn consume_input(&mut self, job: Job, w: Wiring) -> (r: EvalStep)
        requires
            old(self).job_state() is None,
            tables_wf(old(self).units(), old(self).deps()),
            stack_elements_wf(old(self).elements(), old(self).units()),
            old(self).elements().len() >= 1,
            1 <= w.remaining <= w.inputs@.len(),
            w.idx == old(self).units().len() - 1,
            old(self).deps()[w.idx as int] is Some,
            old(self).elements().last().idx < w.idx,
        ensures
            tables_wf(final(self).units(), final(self).deps()),
            stack_elements_wf(final(self).elements(), final(self).units()),
            final(self).units() == old(self).units(),
            final(self).sink() == old(self).sink(),
            final(self).deps().len() == old(self).deps().len(),
            forall|i: int|
                0 <= i < old(self).deps().len() && i != w.idx ==> final(self).deps()[i] == old(
                    self,
                ).deps()[i],
            final(self).busy(),
            wired_one(
                *old(self),
                *final(self),
                r,
                job,
                w,
                old(self).deps()[w.idx as int]->Some_0@,
            ),
    {
        let ghost uold = old(self).units();
        let ghost cold = old(self).deps();
        let e = self.stack.pop().unwrap();
        proof {
            assert(slot_wf(uold, cold, e.idx as int));
        }
        let mut add: Vec<usize> = match &self.connections[e.idx] {
            Some(v) => clone_usizes(v),
            None => vstd::pervasive::unreached(),
        };
        add.push(e.idx);
        let mut cur: Vec<usize> = match &self.connections[w.idx] {
            Some(v) => clone_usizes(v),
            None => vstd::pervasive::unreached(),
        };
        let ghost base = cur@;
        cur.append(&mut add);
        self.connections.pop();
        self.connections.push(Some(cur));
        proof {
            assert(self.deps() =~= cold.update(w.idx as int, self.deps()[w.idx as int]));
        }
        let dst = port_name(w.name.as_str(), w.inputs[w.remaining - 1].as_str());
        let rem2 = w.remaining - 1;
        let mut job2 = job;
        job2.phase = Phase::AwaitConnect(
            Wiring { idx: w.idx, name: w.name, inputs: w.inputs, remaining: rem2, outputs: w.outputs },
        );
        self.job = Some(job2);
        proof {
            let cnew = self.deps();
            let c = cnew[w.idx as int]->Some_0@;
            let eidx = old(self).elements().last().idx;
            assert(c =~= base + cold[eidx as int]->Some_0@.push(eidx));
            assert forall|v: usize| base.contains(v) implies c.contains(v) by {
                let t = choose|t: int| 0 <= t < base.len() && base[t] == v;
                assert(c[t] == v);
            }
            assert forall|v: usize| cold[eidx as int]->Some_0@.contains(v) implies c.contains(
                v,
            ) by {
                let ce = cold[eidx as int]->Some_0@;
                let t = choose|t: int| 0 <= t < ce.len() && ce[t] == v;
                assert(c[base.len() + t] == v);
            }
            assert(c.len() == base.len() + cold[eidx as int]->Some_0@.len() + 1);
            assert(c[c.len() - 1] == eidx);
            assert(c.contains(eidx));
            assert forall|i: int| 0 <= i < uold.len() implies slot_wf(uold, cnew, i) by {
                assert(slot_wf(uold, cold, i));
                if i == w.idx {
                    assert(slot_wf(uold, cold, e.idx as int));
                    assert forall|t: int| #![trigger c[t]] 0 <= t < c.len() implies {
                        let jj = c[t] as int;
                        &&& jj < i
                        &&& uold[jj] is Some
                        &&& (cnew[jj] matches Some(cj) ==> forall|u: int|
                            0 <= u < cj@.len() ==> c.contains(#[trigger] cj@[u]))
                    } by {
                        let jj = c[t] as int;
                        if t < base.len() {
                            assert(base[t] == c[t]);
                            assert(base.contains(c[t]));
                        } else if t < c.len() - 1 {
                            let ce = cold[eidx as int]->Some_0@;
                            assert(ce[t - base.len()] == c[t]);
                            assert(ce.contains(c[t]));
                        } else {
                            assert(c[t] == eidx);
                        }
                        assert(jj < i && uold[jj] is Some);
                        assert(cnew[jj] == cold[jj]);
                    }
                }
            }
        }
        EvalStep::Request(Action::Connect { src: e.port, dst })
    }
}

/// Copies a vector of slot indices.
fn clone_usizes(v: &Vec<usize>) -> (r: Vec<usize>)
    ensures
        r@ == v@,
{
    let mut r: Vec<usize> = Vec::new();
    let mut i: usize = 0;
    while i < v.len()
        invariant
            0 <= i <= v@.len(),
            r@.len() == i,
            forall|j: int| 0 <= j < i ==> r@[j] == v@[j],
        decreases v@.len() - i,
    {
        r.push(v[i]);
        i = i + 1;
    }
    proof {
        assert(r@ =~= v@);
    }
    r
}

} // verus!
