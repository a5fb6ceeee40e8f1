//! The static-shape decoder: whisper's decoder as two fixed-shape graphs so it
//! compiles for the Hexagon NPU. The graphs live in the model's `onnx/` folder:
//!
//! - `cross_kv.onnx`: encoder output -> per-layer K/V for cross-attention, once
//!   per utterance.
//! - `decoder_step_<MAX>.onnx` (fp32 inputs) and `..._f16.onnx` (fp16 cache and
//!   cross inputs): one token + its position + an additive mask + the
//!   self-attention cache (`MAX` slots) + the cross K/V -> logits and this
//!   token's K/V for every layer.
//!
//! The caller owns the cache and runs the graphs. Each step writes the returned
//! K/V into slot `position` and unmasks it.

use crate::asr::onnx::{lemma_loop_period, push_next, with_next, ModelInfo, N_CTX};
use crate::text::{append, append_str, chars_of, decimal, decimal_of, same, string_of, texts};
use vstd::prelude::*;

verus! {

/// Encoder frames for a 30 s window: whisper always attends over all of them.
pub const ENC_LEN: usize = 1500;

/// The sizes of the static graphs.
#[derive(Debug, Clone, Copy, PartialEq, Eq, Structural)]
pub struct Dims {
    pub layers: usize,
    pub heads: usize,
    pub head_dim: usize,
    pub max_len: usize,
    pub vocab: usize,
}

/// The sizes of the static graphs of a model, whose attention heads share its
/// width.
pub fn dims(info: &ModelInfo, max_len: usize) -> (r: Dims)
    requires
        info.decoder_heads > 0,
    ensures
        r == (Dims {
            layers: info.decoder_layers,
            heads: info.decoder_heads,
            head_dim: info.d_model / info.decoder_heads,
            max_len,
            vocab: info.vocab,
        }),
{
    Dims {
        layers: info.decoder_layers,
        heads: info.decoder_heads,
        head_dim: info.d_model / info.decoder_heads,
        max_len,
        vocab: info.vocab,
    }
}

/// Whether the encoder's output is of the size that the graphs take: one value per
/// frame and unit of the model's width.
pub fn hidden_fits(len: usize, d_model: usize) -> (r: bool)
    ensures
        r == (len == ENC_LEN * d_model),
{
    match ENC_LEN.checked_mul(d_model) {
        Some(expected) => len == expected,
        None => false,
    }
}

/// The name of the key tensor, or of the value tensor, of a layer.
pub open spec fn kv_name(prefix: Seq<char>, layer: nat, key: bool) -> Seq<char> {
    prefix + "."@ + decimal(layer) + if key {
        ".key"@
    } else {
        ".value"@
    }
}

fn kv_name_of(prefix: &str, layer: usize, key: bool) -> (r: String)
    ensures
        r@ == kv_name(prefix@, layer as nat, key),
{
    let mut name: Vec<char> = chars_of(prefix);
    append_str(&mut name, ".");
    append(&mut name, decimal_of(layer as u64).as_slice());
    if key {
        append_str(&mut name, ".key");
    } else {
        append_str(&mut name, ".value");
    }
    string_of(name.as_slice())
}

/// The names of all layers' tensors: layer by layer, the key before the value.
pub open spec fn all_kv_names(prefix: Seq<char>, layers: nat) -> Seq<Seq<char>> {
    Seq::new(2 * layers, |i: int| kv_name(prefix, (i / 2) as nat, i % 2 == 0))
}

/// Each layer has two tensors, the key right before the value, named by its number.
pub proof fn law_layers_are_named_in_order(prefix: Seq<char>, layers: nat, l: int)
    requires
        0 <= l < layers,
    ensures
        all_kv_names(prefix, layers).len() == 2 * layers,
        all_kv_names(prefix, layers)[2 * l] == prefix + "."@ + decimal(l as nat) + ".key"@,
        all_kv_names(prefix, layers)[2 * l + 1] == prefix + "."@ + decimal(l as nat) + ".value"@,
{
}

/// The names of all layers' tensors.
pub fn kv_names(prefix: &str, layers: usize) -> (r: Vec<String>)
    ensures
        texts(r@) == all_kv_names(prefix@, layers as nat),
{
    let mut names: Vec<String> = Vec::new();
    let mut l: usize = 0;
    while l < layers
        invariant
            l <= layers,
            texts(names@) == all_kv_names(prefix@, l as nat),
        decreases layers - l,
    {
        let ghost before = texts(names@);
        names.push(kv_name_of(prefix, l, true));
        names.push(kv_name_of(prefix, l, false));
        proof {
            let next = all_kv_names(prefix@, (l + 1) as nat);
            assert(texts(names@) == before.push(kv_name(prefix@, l as nat, true)).push(
                kv_name(prefix@, l as nat, false),
            ));
            assert forall|i: int| 0 <= i < next.len() implies texts(names@)[i] == next[i] by {
                if i < 2 * l {
                    assert(before[i] == all_kv_names(prefix@, l as nat)[i]);
                }
            }
            assert(texts(names@) == next);
        }
        l += 1;
    }
    names
}

/// The file names of the static graphs, in the model's `onnx/` folder.
pub struct GraphFiles {
    pub cross: String,
    pub step32: String,
    pub step16: String,
}

/// The file names of the static graphs with `max_len` slots.
pub fn graph_files(max_len: usize) -> (r: GraphFiles)
    ensures
        r.cross@ == "cross_kv.onnx"@,
        r.step32@ == "decoder_step_"@ + decimal(max_len as nat) + ".onnx"@,
        r.step16@ == "decoder_step_"@ + decimal(max_len as nat) + "_f16.onnx"@,
{
    let mut step: Vec<char> = chars_of("decoder_step_");
    append(&mut step, decimal_of(max_len as u64).as_slice());
    let mut step32: Vec<char> = Vec::new();
    append(&mut step32, step.as_slice());
    assert(step32@ == step@);
    append_str(&mut step32, ".onnx");
    append_str(&mut step, "_f16.onnx");
    GraphFiles {
        cross: "cross_kv.onnx".to_string(),
        step32: string_of(step32.as_slice()),
        step16: string_of(step.as_slice()),
    }
}

/// The static graphs if the model folder has them all.
pub fn files(names: GraphFiles, cross: bool, step32: bool, step16: bool) -> (r: Option<GraphFiles>)
    ensures
        r == (if cross && step32 && step16 {
            Some(names)
        } else {
            None
        }),
{
    if cross && step32 && step16 {
        Some(names)
    } else {
        None
    }
}

/// Whether the decoder may go to the NPU: `COOEE_NPU_DECODER=0` keeps it on the
/// CPU.
pub fn wants_npu(variable: Option<&str>) -> (r: bool)
    ensures
        r == match variable {
            Some(v) => v@ != "0"@,
            None => true,
        },
{
    match variable {
        Some(v) => !same(chars_of(v).as_slice(), chars_of("0").as_slice()),
        None => true,
    }
}

// ---------------------------------------------------------------------------
// The cache
// ---------------------------------------------------------------------------

impl Dims {
    /// The number of elements in one self-attention buffer, `[1, H, MAX, D]`.
    pub open spec fn past_size(self) -> int {
        self.heads * self.max_len * self.head_dim
    }

    /// Where the row of a head and a slot starts in such a buffer.
    pub open spec fn row(self, head: int, slot: int) -> int {
        head * self.max_len * self.head_dim + slot * self.head_dim
    }
}

/// Every row lies in the buffer.
pub proof fn law_rows_fit(dims: Dims, head: int, slot: int)
    requires
        0 <= head < dims.heads,
        0 <= slot < dims.max_len,
    ensures
        0 <= dims.row(head, slot),
        dims.row(head, slot) + dims.head_dim <= dims.past_size(),
{
    let (m, d) = (dims.max_len as int, dims.head_dim as int);
    assert(0 <= head * m * d + slot * d && head * m * d + slot * d + d <= dims.heads as int * m * d)
        by (nonlinear_arith)
        requires
            0 <= head,
            head + 1 <= dims.heads as int,
            0 <= slot,
            slot + 1 <= m,
            0 <= d,
            0 <= m,
    {
        assert((slot + 1) * d <= m * d);
        assert((head + 1) * (m * d) <= dims.heads as int * (m * d));
        assert(0 <= head * (m * d));
        assert(0 <= slot * d);
    }
}

/// No two rows overlap: a step that writes its own slot leaves every other
/// slot as it was.
pub proof fn law_rows_are_apart(dims: Dims, head: int, slot: int, head2: int, slot2: int)
    requires
        0 <= head < dims.heads,
        0 <= head2 < dims.heads,
        0 <= slot < dims.max_len,
        0 <= slot2 < dims.max_len,
        head < head2 || (head == head2 && slot < slot2),
    ensures
        dims.row(head, slot) + dims.head_dim <= dims.row(head2, slot2),
{
    let (m, d) = (dims.max_len as int, dims.head_dim as int);
    if head == head2 {
        assert(slot * d + d <= slot2 * d) by (nonlinear_arith)
            requires
                slot + 1 <= slot2,
                0 <= d,
        ;
    } else {
        assert(head * m * d + slot * d + d <= head2 * m * d + slot2 * d) by (nonlinear_arith)
            requires
                head + 1 <= head2,
                0 <= slot,
                0 <= slot2,
                slot + 1 <= m,
                0 <= d,
        {
            assert((slot + 1) * d <= m * d);
            assert(0 <= m * d);
            assert((head + 1) * (m * d) <= head2 * (m * d));
            assert(0 <= slot2 * d);
        }
    }
}

/// Where this step's row of a head goes.
pub fn row_start(dims: &Dims, head: usize, slot: usize) -> (r: usize)
    requires
        head < dims.heads,
        slot < dims.max_len,
        dims.past_size() <= usize::MAX,
    ensures
        r == dims.row(head as int, slot as int),
        r + dims.head_dim <= dims.past_size(),
{
    proof {
        let (m, d) = (dims.max_len as int, dims.head_dim as int);
        law_rows_fit(*dims, head as int, slot as int);
        assert(0 <= head as int * m * d && 0 <= slot as int * d) by (nonlinear_arith)
            requires
                0 <= head as int,
                0 <= slot as int,
                0 <= m,
                0 <= d,
        ;
        if d > 0 {
            assert(head as int * m <= head as int * m * d) by (nonlinear_arith)
                requires
                    0 <= head as int * m,
                    d >= 1,
            ;
        }
        assert(0 <= head as int * m) by (nonlinear_arith)
            requires
                0 <= head as int,
                0 <= m,
        ;
    }
    if dims.head_dim == 0 {
        assert(dims.row(head as int, slot as int) == 0) by (nonlinear_arith)
            requires
                dims.head_dim == 0,
        ;
        return 0;
    }
    head * dims.max_len * dims.head_dim + slot * dims.head_dim
}

/// Whether a slot of the mask is open at a step: the slots before the step's
/// own, and the last one, which is this token.
pub fn visible(slot: usize, position: usize, max_len: usize) -> (r: bool)
    ensures
        r == (slot < position || slot == max_len),
{
    slot < position || slot == max_len
}

// ---------------------------------------------------------------------------
// Decoding
// ---------------------------------------------------------------------------

/// A decode in progress, one position at a time.
#[verifier::ext_equal]
pub ghost struct StepView {
    /// The start sequence.
    pub prefix: Seq<u32>,
    /// The start sequence and the tokens that followed.
    pub tokens: Seq<u32>,
    pub eot: u32,
    /// The position that is fed next.
    pub pos: int,
    /// The first position that the cache has no slot for.
    pub end: int,
    /// Whether the end of the text, or a loop, has come.
    pub stopped: bool,
}

impl StepView {
    /// A decode that starts with `prefix`.
    pub open spec fn start(prefix: Seq<u32>, eot: u32, max_len: usize) -> StepView {
        StepView {
            prefix,
            tokens: prefix,
            eot,
            pos: 0,
            end: if max_len < N_CTX {
                max_len as int
            } else {
                N_CTX as int
            },
            stopped: false,
        }
    }

    /// Whether there is a step still to run.
    pub open spec fn running(self) -> bool {
        !self.stopped && self.pos < self.end
    }

    /// Whether the step's answer is the next token; the start sequence is fed
    /// without asking.
    pub open spec fn wants_next(self) -> bool {
        self.pos + 1 >= self.tokens.len()
    }

    /// The decode after a step, and after its answer where one was wanted.
    pub open spec fn after(self, next: Option<u32>) -> StepView {
        match next {
            Some(n) => {
                let (tokens, stopped) = with_next(
                    self.prefix.len() as int,
                    self.tokens,
                    self.eot,
                    n,
                );
                StepView { tokens, stopped, pos: self.pos + 1, ..self }
            },
            None => StepView { pos: self.pos + 1, ..self },
        }
    }

    /// What holds of every decode: the position has a token and, where a step is
    /// to run, a slot; the start sequence is kept; every position up to the
    /// last token has been fed; and the end-of-text token stands behind the
    /// start sequence only as the last one, when the decode has stopped.
    pub open spec fn sound(self) -> bool {
        &&& 0 < self.prefix.len() <= self.tokens.len()
        &&& self.tokens.take(self.prefix.len() as int) == self.prefix
        &&& 0 <= self.pos
        &&& self.pos <= self.end
        &&& !self.stopped ==> self.pos < self.tokens.len()
        &&& !self.stopped && self.tokens.len() > self.prefix.len() ==> self.tokens.len() == self.pos
            + 1
        &&& self.tokens.len() <= self.prefix.len() || self.tokens.len() <= self.pos + 1
        &&& forall|i: int|
            #![trigger self.tokens[i]]
            self.prefix.len() <= i < self.tokens.len() ==> (self.tokens[i] == self.eot <==> (
            self.stopped && i == self.tokens.len() - 1))
    }
}

/// Every decode starts sound, and stays so whatever the graph answers.
pub proof fn law_stepping_stays_sound(d: StepView, next: Option<u32>, max_len: usize)
    ensures
        d.prefix.len() > 0 ==> StepView::start(d.prefix, d.eot, max_len).sound(),
        d.sound() && d.running() && (next is Some <==> d.wants_next()) ==> d.after(next).sound(),
{
    let fresh = StepView::start(d.prefix, d.eot, max_len);
    assert(fresh.tokens.take(d.prefix.len() as int) == d.prefix);
    if d.sound() && d.running() && (next is Some <==> d.wants_next()) && next is Some {
        let n = next->0;
        let a = d.after(next);
        let start = d.prefix.len() as int;
        let pushed = d.tokens.push(n);
        lemma_loop_period(pushed.skip(start), 1);
        assert(a.tokens.take(start) == d.tokens.take(start));
        assert forall|i: int|
            #![trigger a.tokens[i]]
            a.prefix.len() <= i < a.tokens.len() implies (a.tokens[i] == a.eot <==> (a.stopped && i
            == a.tokens.len() - 1)) by {
            if i < a.tokens.len() - 1 {
                assert(a.tokens[i] == d.tokens[i]);
            }
        }
    }
}

/// Every decode ends, whatever the graph answers: a step either is the last or
/// leaves one slot less.
pub proof fn law_every_stepping_ends(d: StepView, next: Option<u32>)
    requires
        d.running(),
    ensures
        d.after(next).end == d.end,
        !d.after(next).running() || d.end - d.after(next).pos < d.end - d.pos,
{
}

/// Every position is fed once, in order, up to the cache's slots or the context of
/// 448; an answer is wanted from the last token on, and before that a step changes
/// nothing but the position.
pub proof fn law_positions_are_fed_in_order(
    d: StepView,
    prefix: Seq<u32>,
    eot: u32,
    max_len: usize,
    next: Option<u32>,
)
    requires
        d.sound(),
        d.running(),
    ensures
        StepView::start(prefix, eot, max_len).pos == 0,
        StepView::start(prefix, eot, max_len).end == (if max_len < 448 {
            max_len as int
        } else {
            448
        }),
        StepView::start(prefix, eot, max_len).tokens == prefix,
        d.wants_next() <==> d.pos == d.tokens.len() - 1,
        d.after(next).pos == d.pos + 1,
        d.after(next).prefix == d.prefix && d.after(next).eot == d.eot,
        next is None ==> d.after(next).tokens == d.tokens && !d.after(next).stopped,
        next == Some(d.eot) ==> d.after(next).tokens == d.tokens.push(d.eot) && d.after(next).stopped,
{
}

/// One step of the graph.
#[derive(Debug, Clone, Copy, PartialEq, Eq, Structural)]
pub struct Step {
    /// The token to feed.
    pub token: u32,
    /// Its position, which is also the slot for its K/V.
    pub position: usize,
    /// Whether the logits are wanted.
    pub wants_next: bool,
}

/// Greedy decoding through the static graphs, which the caller runs.
pub struct Stepping {
    tokens: Vec<u32>,
    start: usize,
    eot: u32,
    pos: usize,
    end: usize,
    stopped: bool,
}

impl View for Stepping {
    type V = StepView;

    closed spec fn view(&self) -> StepView {
        StepView {
            prefix: self.tokens@.take(self.start as int),
            tokens: self.tokens@,
            eot: self.eot,
            pos: self.pos as int,
            end: self.end as int,
            stopped: self.stopped,
        }
    }
}

impl Stepping {
    #[verifier::type_invariant]
    spec fn well_formed(self) -> bool {
        &&& self.start <= self.tokens.len()
        &&& self.end <= N_CTX
        &&& self@.sound()
    }

    /// A decode that starts with `prefix`, with `max_len` slots.
    pub fn new(prefix: &[u32], eot: u32, max_len: usize) -> (r: Stepping)
        requires
            prefix.len() > 0,
        ensures
            r@ == StepView::start(prefix@, eot, max_len),
    {
        let mut tokens: Vec<u32> = Vec::new();
        let mut i: usize = 0;
        while i < prefix.len()
            invariant
                i <= prefix.len(),
                tokens@ == prefix@.take(i as int),
            decreases prefix.len() - i,
        {
            tokens.push(prefix[i]);
            i += 1;
        }
        assert(tokens@ == prefix@);
        let end: usize = if max_len < N_CTX {
            max_len
        } else {
            N_CTX
        };
        proof {
            law_stepping_stays_sound(StepView::start(prefix@, eot, max_len), None, max_len);
            assert(tokens@.take(prefix.len() as int) == prefix@);
        }
        Stepping { tokens, start: prefix.len(), eot, pos: 0, end, stopped: false }
    }

    /// The step to run next; `None` at the end.
    pub fn step(&self) -> (r: Option<Step>)
        ensures
            r is Some <==> self@.running(),
            r matches Some(s) ==> {
                &&& s.position == self@.pos
                &&& s.token == self@.tokens[self@.pos]
                &&& s.wants_next == self@.wants_next()
                &&& s.position < self@.end
            },
    {
        proof {
            use_type_invariant(self);
        }
        if self.stopped || self.pos >= self.end {
            return None;
        }
        Some(
            Step {
                token: self.tokens[self.pos],
                position: self.pos,
                wants_next: self.pos + 1 >= self.tokens.len(),
            },
        )
    }

    /// Goes on after a step, with the next token where it was wanted.
    pub fn advance(self, next: Option<u32>) -> (r: Stepping)
        requires
            self@.running(),
            next is Some <==> self@.wants_next(),
        ensures
            r@ == self@.after(next),
    {
        proof {
            use_type_invariant(&self);
            law_stepping_stays_sound(self@, next, 0);
        }
        let ghost before = self@;
        let Stepping { tokens, start, eot, pos, end, stopped } = self;
        let mut tokens = tokens;
        let mut stopped: bool = stopped;
        match next {
            Some(n) => {
                assert(tokens.len() <= pos + 1);
                stopped = push_next(&mut tokens, start, eot, n);
            },
            None => {},
        }
        assert(tokens@.take(start as int) == before.prefix) by {
            assert(before.after(next).tokens.take(start as int) == before.prefix);
        }
        Stepping { tokens, start, eot, pos: pos + 1, end, stopped }
    }

    /// The start sequence and what followed.
    pub fn finish(self) -> (r: Vec<u32>)
        ensures
            r@ == self@.tokens,
            self@.sound(),
    {
        proof {
            use_type_invariant(&self);
        }
        self.tokens
    }
}

} // verus!
