//! Whisper on ONNX Runtime, encoder on the Hexagon NPU.
//!
//! The model is a Hugging Face Optimum export as downloaded (for example
//! `onnx-community/whisper-small.en`): `onnx/encoder_model.onnx`,
//! `onnx/decoder_model_merged.onnx`, `config.json`, `generation_config.json`,
//! `vocab.json`. The encoder runs on the QNN EP when an NPU is present and on
//! the CPU EP otherwise. Greedy decoding, English, no timestamps.
//!
//! Sessions and tensors belong to the caller. This module holds what is decided
//! about them: what the model files say, where a graph runs, what the decoder is
//! fed and when it stops, and what becomes of the text.

pub mod mel;
pub mod runtime;
pub mod static_dec;
pub mod tokenizer;

use crate::json::{get, parse, parsed, tree, Json};
use crate::text::{
    append, append_str, chars_of, decimal, decimal_of, is_white, joined, lemma_words_apart,
    lemma_words_trimmed, occurs, occurs_at, part, same, string_of, texts, trim, trimmed, words,
};
use tokenizer::{ids_bytes, lossy_text, text_ids, Tokenizer};
use vstd::prelude::*;

verus! {

/// Whisper's decoder context is 448 positions, shared by the prompt and the
/// output.
pub const N_CTX: usize = 448;

/// The most prompt tokens whisper keeps: half the context, less one.
pub const MAX_PROMPT_TOKENS: usize = N_CTX / 2 - 1;

// ---------------------------------------------------------------------------
// The start sequence
// ---------------------------------------------------------------------------

/// Token ids that start every decode, and the one that ends it.
pub struct Generation {
    pub sot_ids: Vec<u32>,
    pub eot: u32,
    /// `<|startofprev|>`, which introduces prompt text. Absent from some
    /// exports' `added_tokens.json`; then prompting is off.
    pub start_of_prev: Option<u32>,
}

/// The last `MAX_PROMPT_TOKENS` of a prompt.
pub open spec fn prompt_tail(prompt: Seq<u32>) -> Seq<u32> {
    if prompt.len() > MAX_PROMPT_TOKENS {
        prompt.skip(prompt.len() - MAX_PROMPT_TOKENS)
    } else {
        prompt
    }
}

/// The start sequence for a decode.
pub open spec fn start_sequence(
    sot_ids: Seq<u32>,
    start_of_prev: Option<u32>,
    prompt: Seq<u32>,
) -> Seq<u32> {
    match start_of_prev {
        Some(prev) => if prompt.len() > 0 {
            seq![prev] + prompt_tail(prompt) + sot_ids
        } else {
            sot_ids
        },
        None => sot_ids,
    }
}

/// Appends part of a slice of ids.
fn extend_ids(ids: &mut Vec<u32>, more: &[u32], from: usize)
    requires
        from <= more.len(),
    ensures
        final(ids)@ == old(ids)@ + more@.skip(from as int),
{
    let ghost start = ids@;
    let mut i: usize = from;
    assert(start + more@.subrange(from as int, from as int) == start);
    while i < more.len()
        invariant
            from <= i <= more.len(),
            ids@ == start + more@.subrange(from as int, i as int),
        decreases more.len() - i,
    {
        ids.push(more[i]);
        i += 1;
    }
    assert(more@.subrange(from as int, i as int) == more@.skip(from as int));
}

impl Generation {
    /// The full start sequence for a decode: the prompt (if any) after
    /// `<|startofprev|>`, then the usual start tokens. Whisper keeps only the
    /// last `MAX_PROMPT_TOKENS` of a long prompt.
    pub fn prefix(&self, prompt: &[u32]) -> (ids: Vec<u32>)
        ensures
            ids@ == start_sequence(self.sot_ids@, self.start_of_prev, prompt@),
    {
        let mut ids: Vec<u32> = Vec::new();
        if prompt.len() > 0 {
            match self.start_of_prev {
                Some(prev) => {
                    ids.push(prev);
                    let keep: usize = prompt.len().saturating_sub(MAX_PROMPT_TOKENS);
                    extend_ids(&mut ids, prompt, keep);
                    assert(prompt@.skip(keep as int) == prompt_tail(prompt@));
                    assert(ids@ == seq![prev] + prompt_tail(prompt@));
                },
                None => {},
            }
        }
        let ghost before = ids@;
        extend_ids(&mut ids, self.sot_ids.as_slice(), 0);
        assert(self.sot_ids@.skip(0) == self.sot_ids@);
        assert(ids@ == before + self.sot_ids@);
        ids
    }
}

/// However long the prompt, the start sequence leaves room for output: it takes
/// at most half of the context besides the start tokens, which end it.
pub proof fn law_a_prompt_leaves_room(sot_ids: Seq<u32>, start_of_prev: Option<u32>, prompt: Seq<u32>)
    ensures
        start_sequence(sot_ids, start_of_prev, prompt).len() <= N_CTX / 2 + sot_ids.len(),
        sot_ids.len() <= start_sequence(sot_ids, start_of_prev, prompt).len(),
        start_sequence(sot_ids, start_of_prev, prompt).skip(
            start_sequence(sot_ids, start_of_prev, prompt).len() - sot_ids.len(),
        ) == sot_ids,
{
    let all = start_sequence(sot_ids, start_of_prev, prompt);
    assert(all.skip(all.len() - sot_ids.len()) == sot_ids);
}

/// The start sequence holds the end of the prompt, at most 223 tokens of it, in
/// order, between `<|startofprev|>` and the start tokens; without a prompt, or
/// without that token, it is the start tokens alone.
pub proof fn law_the_prompt_keeps_its_end(sot_ids: Seq<u32>, prev: u32, prompt: Seq<u32>)
    ensures
        start_sequence(sot_ids, None, prompt) == sot_ids,
        start_sequence(sot_ids, Some(prev), Seq::empty()) == sot_ids,
        0 < prompt.len() <= 223 ==> start_sequence(sot_ids, Some(prev), prompt) == seq![prev] + prompt
            + sot_ids,
        prompt.len() > 223 ==> start_sequence(sot_ids, Some(prev), prompt) == seq![prev]
            + prompt.subrange(prompt.len() - 223, prompt.len() as int) + sot_ids,
{
    if prompt.len() > 223 {
        assert(prompt.skip(prompt.len() - 223) == prompt.subrange(
            prompt.len() - 223,
            prompt.len() as int,
        ));
    }
}

// ---------------------------------------------------------------------------
// What the model files say
// ---------------------------------------------------------------------------

/// What `config.json` and `generation_config.json` say about the export.
pub struct ModelInfo {
    pub n_mels: usize,
    pub d_model: usize,
    pub decoder_layers: usize,
    pub decoder_heads: usize,
    pub vocab: usize,
    pub generation: Generation,
}

/// Why an export's description could not be used.
#[derive(Debug, Clone, Copy, PartialEq, Eq, Structural)]
pub enum ModelError {
    /// `config.json` could not be read.
    ReadConfig,
    /// `config.json` is not JSON.
    ParseConfig,
    /// `generation_config.json` could not be read.
    ReadGeneration,
    /// `generation_config.json` is not JSON.
    ParseGeneration,
    /// No `decoder_start_token_id`.
    Start,
    /// No `eos_token_id`.
    Eos,
    /// No `d_model`.
    Width,
    /// No `decoder_layers`.
    Layers,
    /// No `decoder_attention_heads`.
    Heads,
    /// No `vocab_size`.
    Vocab,
}

/// The numbers that are read from `config.json`.
#[derive(Debug, Clone, Copy, PartialEq, Eq, Structural)]
pub struct ConfigFields {
    pub decoder_start_token_id: Option<u64>,
    pub eos_token_id: Option<u64>,
    pub num_mel_bins: Option<u64>,
    pub d_model: Option<u64>,
    pub decoder_layers: Option<u64>,
    pub decoder_attention_heads: Option<u64>,
    pub vocab_size: Option<u64>,
}

/// What is read from `generation_config.json`.
pub struct GenerationFields {
    pub decoder_start_token_id: Option<u64>,
    pub eos_token_id: Option<u64>,
    /// The ids of `forced_decoder_ids`, whose entries pair a place with an id.
    pub forced: Vec<u64>,
}

/// What a [`GenerationFields`] holds.
#[verifier::ext_equal]
pub ghost struct GenerationView {
    pub decoder_start_token_id: Option<u64>,
    pub eos_token_id: Option<u64>,
    pub forced: Seq<u64>,
}

impl View for GenerationFields {
    type V = GenerationView;

    open spec fn view(&self) -> GenerationView {
        GenerationView {
            decoder_start_token_id: self.decoder_start_token_id,
            eos_token_id: self.eos_token_id,
            forced: self.forced@,
        }
    }
}

/// What a `config.json` says.
pub open spec fn config_fields(config: Json) -> ConfigFields {
    ConfigFields {
        decoder_start_token_id: config.unsigned_member("decoder_start_token_id"@),
        eos_token_id: config.unsigned_member("eos_token_id"@),
        num_mel_bins: config.unsigned_member("num_mel_bins"@),
        d_model: config.unsigned_member("d_model"@),
        decoder_layers: config.unsigned_member("decoder_layers"@),
        decoder_attention_heads: config.unsigned_member("decoder_attention_heads"@),
        vocab_size: config.unsigned_member("vocab_size"@),
    }
}

/// The id in one entry of `forced_decoder_ids`.
pub open spec fn forced_id(pair: Json) -> Option<u64> {
    match pair.element(1) {
        Some(v) => v.unsigned(),
        None => None,
    }
}

/// The ids in the entries of `forced_decoder_ids` that have one.
pub open spec fn forced_ids(pairs: Seq<Json>) -> Seq<u64>
    decreases pairs.len(),
{
    if pairs.len() == 0 {
        Seq::empty()
    } else {
        match forced_id(pairs.last()) {
            Some(id) => forced_ids(pairs.drop_last()).push(id),
            None => forced_ids(pairs.drop_last()),
        }
    }
}

/// What a `generation_config.json` says.
pub open spec fn generation_fields(generation: Json) -> GenerationView {
    GenerationView {
        decoder_start_token_id: generation.unsigned_member("decoder_start_token_id"@),
        eos_token_id: generation.unsigned_member("eos_token_id"@),
        forced: match generation.member("forced_decoder_ids"@) {
            Some(Json::Array(pairs)) => forced_ids(pairs),
            _ => Seq::empty(),
        },
    }
}

/// The unsigned integer in a member.
fn unsigned_member(v: &serde_json::Value, key: &str) -> (r: Option<u64>)
    ensures
        r == tree(*v).unsigned_member(key@),
{
    match get(v, key) {
        Some(m) => m.as_u64(),
        None => None,
    }
}

/// Reads a `config.json`.
pub fn read_config_fields(config: &serde_json::Value) -> (r: ConfigFields)
    ensures
        r == config_fields(tree(*config)),
{
    ConfigFields {
        decoder_start_token_id: unsigned_member(config, "decoder_start_token_id"),
        eos_token_id: unsigned_member(config, "eos_token_id"),
        num_mel_bins: unsigned_member(config, "num_mel_bins"),
        d_model: unsigned_member(config, "d_model"),
        decoder_layers: unsigned_member(config, "decoder_layers"),
        decoder_attention_heads: unsigned_member(config, "decoder_attention_heads"),
        vocab_size: unsigned_member(config, "vocab_size"),
    }
}

/// Reads a `generation_config.json`.
pub fn read_generation_fields(generation: &serde_json::Value) -> (r: GenerationFields)
    ensures
        r@ == generation_fields(tree(*generation)),
{
    let mut forced: Vec<u64> = Vec::new();
    match get(generation, "forced_decoder_ids") {
        Some(list) => match list.as_array() {
            Some(pairs) => {
                let ghost all = crate::json::trees(pairs@);
                let mut i: usize = 0;
                while i < pairs.len()
                    invariant
                        i <= pairs.len(),
                        all == crate::json::trees(pairs@),
                        forced@ == forced_ids(all.take(i as int)),
                    decreases pairs.len() - i,
                {
                    proof {
                        assert(all.take(i as int + 1).drop_last() == all.take(i as int));
                        assert(all.take(i as int + 1).last() == tree(pairs@[i as int]));
                    }
                    match pairs[i].as_array() {
                        Some(pair) => {
                            if pair.len() > 1 {
                                match pair[1].as_u64() {
                                    Some(id) => {
                                        forced.push(id);
                                    },
                                    None => {},
                                }
                            }
                        },
                        None => {},
                    }
                    i += 1;
                }
                assert(all.take(i as int) == all);
            },
            None => {},
        },
        None => {},
    }
    GenerationFields {
        decoder_start_token_id: unsigned_member(generation, "decoder_start_token_id"),
        eos_token_id: unsigned_member(generation, "eos_token_id"),
        forced,
    }
}

/// What a file says where it says anything, and otherwise the other file.
pub open spec fn preferred(first: Option<u64>, second: Option<u64>) -> Option<u64> {
    match first {
        Some(v) => Some(v),
        None => second,
    }
}

fn prefer(first: Option<u64>, second: Option<u64>) -> (r: Option<u64>)
    ensures
        r == preferred(first, second),
{
    match first {
        Some(v) => Some(v),
        None => second,
    }
}

/// The first thing that is missing from an export's description.
pub open spec fn missing(config: ConfigFields, generation: GenerationView) -> Option<ModelError> {
    if preferred(generation.decoder_start_token_id, config.decoder_start_token_id) is None {
        Some(ModelError::Start)
    } else if preferred(generation.eos_token_id, config.eos_token_id) is None {
        Some(ModelError::Eos)
    } else if config.d_model is None {
        Some(ModelError::Width)
    } else if config.decoder_layers is None {
        Some(ModelError::Layers)
    } else if config.decoder_attention_heads is None {
        Some(ModelError::Heads)
    } else if config.vocab_size is None {
        Some(ModelError::Vocab)
    } else {
        None
    }
}

/// Ids as the 32-bit integers that they are used as.
pub open spec fn narrowed(ids: Seq<u64>) -> Seq<u32> {
    Seq::new(ids.len(), |i: int| ids[i] as u32)
}

/// Whether `info` is what the fields describe. `generation_config.json` comes
/// before `config.json` where both have an id.
pub open spec fn describes(
    info: ModelInfo,
    config: ConfigFields,
    generation: GenerationView,
    start_of_prev: Option<u64>,
) -> bool {
    let start = preferred(generation.decoder_start_token_id, config.decoder_start_token_id);
    let eos = preferred(generation.eos_token_id, config.eos_token_id);
    &&& info.n_mels == (match config.num_mel_bins {
        Some(n) => n,
        None => 80,
    }) as usize
    &&& info.d_model == config.d_model->0 as usize
    &&& info.decoder_layers == config.decoder_layers->0 as usize
    &&& info.decoder_heads == config.decoder_attention_heads->0 as usize
    &&& info.vocab == config.vocab_size->0 as usize
    &&& info.generation.sot_ids@ == seq![start->0 as u32] + narrowed(generation.forced)
    &&& info.generation.eot == eos->0 as u32
    &&& info.generation.start_of_prev == match start_of_prev {
        Some(id) => Some(id as u32),
        None => None,
    }
}

/// Where both files have an id, `generation_config.json` decides; the start tokens
/// are the decoder's own and then the forced ones; and there are 80 mel bins unless
/// `config.json` says otherwise.
pub proof fn law_generation_comes_first(
    info: ModelInfo,
    config: ConfigFields,
    generation: GenerationView,
    start_of_prev: Option<u64>,
)
    requires
        missing(config, generation) is None,
        describes(info, config, generation, start_of_prev),
    ensures
        info.generation.sot_ids@.len() == generation.forced.len() + 1,
        generation.decoder_start_token_id matches Some(id) ==> info.generation.sot_ids@[0]
            == id as u32,
        generation.decoder_start_token_id is None ==> config.decoder_start_token_id is Some
            && info.generation.sot_ids@[0] == config.decoder_start_token_id->0 as u32,
        forall|i: int|
            0 <= i < generation.forced.len() ==> info.generation.sot_ids@[i + 1]
                == #[trigger] generation.forced[i] as u32,
        generation.eos_token_id matches Some(id) ==> info.generation.eot == id as u32,
        generation.eos_token_id is None ==> config.eos_token_id is Some && info.generation.eot
            == config.eos_token_id->0 as u32,
        config.num_mel_bins is None ==> info.n_mels == 80,
        config.num_mel_bins matches Some(n) ==> info.n_mels == n as usize,
{
    assert forall|i: int| 0 <= i < generation.forced.len() implies info.generation.sot_ids@[i + 1]
        == #[trigger] generation.forced[i] as u32 by {
        assert(narrowed(generation.forced)[i] == generation.forced[i] as u32);
    }
}

/// The description of an export from the fields of its files.
pub fn model_info(
    config: &ConfigFields,
    generation: &GenerationFields,
    start_of_prev: Option<u64>,
) -> (r: Result<ModelInfo, ModelError>)
    ensures
        match missing(*config, generation@) {
            Some(e) => r == Err::<ModelInfo, ModelError>(e),
            None => r matches Ok(info) && describes(info, *config, generation@, start_of_prev),
        },
{
    let sot: u32 = match prefer(generation.decoder_start_token_id, config.decoder_start_token_id) {
        Some(v) => v as u32,
        None => {
            return Err(ModelError::Start);
        },
    };
    let eot: u32 = match prefer(generation.eos_token_id, config.eos_token_id) {
        Some(v) => v as u32,
        None => {
            return Err(ModelError::Eos);
        },
    };
    let mut sot_ids: Vec<u32> = Vec::new();
    sot_ids.push(sot);
    let ghost forced = generation.forced@;
    let mut i: usize = 0;
    while i < generation.forced.len()
        invariant
            i <= generation.forced.len(),
            forced == generation.forced@,
            sot_ids@ == seq![sot] + narrowed(forced.take(i as int)),
        decreases generation.forced.len() - i,
    {
        sot_ids.push(generation.forced[i] as u32);
        i += 1;
    }
    assert(forced.take(i as int) == forced);
    let d_model: u64 = match config.d_model {
        Some(v) => v,
        None => {
            return Err(ModelError::Width);
        },
    };
    let decoder_layers: u64 = match config.decoder_layers {
        Some(v) => v,
        None => {
            return Err(ModelError::Layers);
        },
    };
    let decoder_heads: u64 = match config.decoder_attention_heads {
        Some(v) => v,
        None => {
            return Err(ModelError::Heads);
        },
    };
    let vocab: u64 = match config.vocab_size {
        Some(v) => v,
        None => {
            return Err(ModelError::Vocab);
        },
    };
    let n_mels: u64 = match config.num_mel_bins {
        Some(v) => v,
        None => 80,
    };
    let start_of_prev: Option<u32> = match start_of_prev {
        Some(id) => Some(id as u32),
        None => None,
    };
    Ok(
        ModelInfo {
            n_mels: n_mels as usize,
            d_model: d_model as usize,
            decoder_layers: decoder_layers as usize,
            decoder_heads: decoder_heads as usize,
            vocab: vocab as usize,
            generation: Generation { sot_ids, eot, start_of_prev },
        },
    )
}

/// The id of `<|startofprev|>` in an `added_tokens.json`, if there is one to be
/// read.
pub open spec fn start_of_prev_in(added: Option<Seq<char>>) -> Option<u64> {
    match added {
        Some(raw) => match parsed(raw) {
            Some(v) => v.unsigned_member("<|startofprev|>"@),
            None => None,
        },
        None => None,
    }
}

/// The contents of a file that may be missing.
pub open spec fn contents(file: Option<&str>) -> Option<Seq<char>> {
    match file {
        Some(raw) => Some(raw@),
        None => None,
    }
}

/// Why the two files cannot be used, if so, apart from what they hold.
pub open spec fn unreadable(config: Option<Seq<char>>, generation: Option<Seq<char>>) -> Option<
    ModelError,
> {
    if config is None {
        Some(ModelError::ReadConfig)
    } else if parsed(config->0) is None {
        Some(ModelError::ParseConfig)
    } else if generation is None {
        Some(ModelError::ReadGeneration)
    } else if parsed(generation->0) is None {
        Some(ModelError::ParseGeneration)
    } else {
        None
    }
}

/// The description of an export from the contents of `config.json`,
/// `generation_config.json` and `added_tokens.json`. `None` stands for a file
/// that could not be read.
pub fn read_model_info(
    config: Option<&str>,
    generation: Option<&str>,
    added: Option<&str>,
) -> (r: Result<ModelInfo, ModelError>)
    ensures
        match unreadable(contents(config), contents(generation)) {
            Some(e) => r == Err::<ModelInfo, ModelError>(e),
            None => {
                let c = config_fields(parsed(config->0@)->0);
                let g = generation_fields(parsed(generation->0@)->0);
                match missing(c, g) {
                    Some(e) => r == Err::<ModelInfo, ModelError>(e),
                    None => r matches Ok(info) && describes(
                        info,
                        c,
                        g,
                        start_of_prev_in(contents(added)),
                    ),
                }
            },
        },
{
    let cfg: ConfigFields = match config {
        Some(raw) => match parse(raw) {
            Ok(v) => read_config_fields(&v),
            Err(_) => {
                return Err(ModelError::ParseConfig);
            },
        },
        None => {
            return Err(ModelError::ReadConfig);
        },
    };
    let gen: GenerationFields = match generation {
        Some(raw) => match parse(raw) {
            Ok(v) => read_generation_fields(&v),
            Err(_) => {
                return Err(ModelError::ParseGeneration);
            },
        },
        None => {
            return Err(ModelError::ReadGeneration);
        },
    };
    let start_of_prev: Option<u64> = match added {
        Some(raw) => match parse(raw) {
            Ok(v) => unsigned_member(&v, "<|startofprev|>"),
            Err(_) => None,
        },
        None => None,
    };
    model_info(&cfg, &gen, start_of_prev)
}

// ---------------------------------------------------------------------------
// Greedy decoding
// ---------------------------------------------------------------------------

/// Whether the sequence ends in the same `p` tokens three times over.
pub open spec fn cycles(tokens: Seq<u32>, p: int) -> bool {
    let n = tokens.len() as int;
    &&& 3 * p <= n
    &&& tokens.subrange(n - p, n) == tokens.subrange(n - 2 * p, n - p)
    &&& tokens.subrange(n - p, n) == tokens.subrange(n - 3 * p, n - 2 * p)
}

/// The least period from `p` to 8 that the sequence ends in a cycle of.
pub open spec fn period_from(tokens: Seq<u32>, p: int) -> Option<int>
    decreases 9 - p,
{
    if p > 8 {
        None
    } else if cycles(tokens, p) {
        Some(p)
    } else {
        period_from(tokens, p + 1)
    }
}

/// The period of a short cycle repeated three times at the end.
pub open spec fn loop_period(tokens: Seq<u32>) -> Option<int> {
    period_from(tokens, 1)
}

/// A loop is found exactly where the last tokens are a stretch of one to eight of
/// them three times over, and its period is that of the shortest such stretch.
pub proof fn law_a_loop_is_three_copies(tokens: Seq<u32>, p: int)
    requires
        1 <= p <= 8,
    ensures
        loop_period(tokens) == Some(p) ==> 3 * p <= tokens.len() && forall|i: int|
            tokens.len() - 2 * p <= i < tokens.len() ==> #[trigger] tokens[i] == tokens[i - p],
        3 * p <= tokens.len() && (forall|i: int|
            tokens.len() - 2 * p <= i < tokens.len() ==> #[trigger] tokens[i] == tokens[i - p]) ==> (
        loop_period(tokens) matches Some(q) && 1 <= q <= p),
        loop_period(tokens) matches Some(q) ==> 1 <= q <= 8,
{
    let n = tokens.len() as int;
    lemma_loop_period(tokens, 1);
    if cycles(tokens, p) {
        let (a, b, c) = (
            tokens.subrange(n - p, n),
            tokens.subrange(n - 2 * p, n - p),
            tokens.subrange(n - 3 * p, n - 2 * p),
        );
        assert forall|i: int| n - 2 * p <= i < n implies #[trigger] tokens[i] == tokens[i - p] by {
            if i >= n - p {
                assert(tokens[i] == a[i - (n - p)]);
                assert(tokens[i - p] == b[i - (n - p)]);
            } else {
                assert(tokens[i] == b[i - (n - 2 * p)]);
                assert(tokens[i - p] == c[i - (n - 2 * p)]);
            }
        }
    }
    if 3 * p <= n && forall|i: int|
        n - 2 * p <= i < n ==> #[trigger] tokens[i] == tokens[i - p] {
        let (a, b, c) = (
            tokens.subrange(n - p, n),
            tokens.subrange(n - 2 * p, n - p),
            tokens.subrange(n - 3 * p, n - 2 * p),
        );
        assert forall|j: int| 0 <= j < p implies a[j] == b[j] && b[j] == c[j] by {
            assert(tokens[n - p + j] == tokens[n - p + j - p]);
            assert(tokens[n - 2 * p + j] == tokens[n - 2 * p + j - p]);
        }
        assert(a == b);
        assert(a == c);
        assert(cycles(tokens, p));
    }
}

/// Whether the sequence ends in the same `p` tokens three times over.
fn ends_in_cycle(tokens: &[u32], p: usize) -> (r: bool)
    requires
        1 <= p <= 8,
    ensures
        r == cycles(tokens@, p as int),
{
    let n: usize = tokens.len();
    if n < 3 * p {
        return false;
    }
    let mut i: usize = 0;
    while i < p
        invariant
            n == tokens.len(),
            i <= p,
            3 * p <= n,
            forall|j: int|
                #![trigger tokens@[n - p + j]]
                0 <= j < i ==> tokens@[n - p + j] == tokens@[n - 2 * p + j] && tokens@[n - p + j]
                    == tokens@[n - 3 * p + j],
        decreases p - i,
    {
        if tokens[n - p + i] != tokens[n - 2 * p + i] || tokens[n - p + i] != tokens[n - 3 * p + i] {
            proof {
                let a = tokens@.subrange(n - p, n as int);
                assert(a[i as int] == tokens@[n - p + i]);
                assert(tokens@.subrange(n - 2 * p, n - p)[i as int] == tokens@[n - 2 * p + i]);
                assert(tokens@.subrange(n - 3 * p, n - 2 * p)[i as int] == tokens@[n - 3 * p + i]);
            }
            return false;
        }
        i += 1;
    }
    proof {
        let a = tokens@.subrange(n - p, n as int);
        let b = tokens@.subrange(n - 2 * p, n - p);
        let c = tokens@.subrange(n - 3 * p, n - 2 * p);
        assert forall|j: int| 0 <= j < p implies a[j] == b[j] && a[j] == c[j] by {
            assert(a[j] == tokens@[n - p + j]);
        }
        assert(a == b);
        assert(a == c);
    }
    true
}

/// A short cycle repeated three times at the end of the sequence.
pub fn repeating(tokens: &[u32]) -> (r: Option<usize>)
    ensures
        match r {
            Some(p) => loop_period(tokens@) == Some(p as int) && 1 <= p <= 8 && 3 * p
                <= tokens.len(),
            None => loop_period(tokens@) is None,
        },
{
    let mut p: usize = 1;
    while p <= 8
        invariant
            1 <= p <= 9,
            loop_period(tokens@) == period_from(tokens@, p as int),
        decreases 9 - p,
    {
        if ends_in_cycle(tokens, p) {
            return Some(p);
        }
        p += 1;
    }
    None
}

/// What the names of the merged decoder's cache inputs start with.
pub const PAST_PREFIX: &'static str = "past_key_values.";

/// Whether an input belongs to the cache.
pub open spec fn is_past(name: Seq<char>) -> bool {
    occurs_at(name, PAST_PREFIX@, 0)
}

/// The output that a cache input is filled from: `present.` for
/// `past_key_values.`.
pub open spec fn present_of(name: Seq<char>) -> Seq<char> {
    "present."@ + name.skip(PAST_PREFIX@.len() as int)
}

/// The cache inputs among all inputs.
pub open spec fn past_of(names: Seq<Seq<char>>) -> Seq<Seq<char>>
    decreases names.len(),
{
    if names.len() == 0 {
        Seq::empty()
    } else if is_past(names.last()) {
        past_of(names.drop_last()).push(names.last())
    } else {
        past_of(names.drop_last())
    }
}

/// The first cache input, where it stands.
pub open spec fn first_past(names: Seq<Seq<char>>, i: int) -> bool {
    0 <= i < names.len() && is_past(names[i]) && forall|j: int|
        0 <= j < i ==> !is_past(#[trigger] names[j])
}

/// The cache inputs are those whose names start with `past_key_values.`, in their
/// order, and each is filled from the output whose name has `present.` for that.
pub proof fn law_the_cache_goes_round(names: Seq<Seq<char>>, rest: Seq<char>)
    ensures
        past_of(names) == names.filter(
            |name: Seq<char>| name.len() >= 16 && name.take(16) == "past_key_values."@,
        ),
        present_of("past_key_values."@ + rest) == "present."@ + rest,
    decreases names.len(),
{
    reveal(Seq::filter);
    reveal_strlit("past_key_values.");
    assert(("past_key_values."@ + rest).skip(16) == rest);
    if names.len() > 0 {
        law_the_cache_goes_round(names.drop_last(), rest);
        let last = names.last();
        if last.len() >= 16 {
            assert(last.take(16) == last.subrange(0, 16));
        }
    }
}

/// One input of the decoder.
pub struct DecoderInput {
    pub name: String,
    /// Its dimensions, if it is a tensor.
    pub dims: Vec<i64>,
}

/// What several inputs are called.
pub open spec fn input_names(inputs: Seq<DecoderInput>) -> Seq<Seq<char>> {
    Seq::new(inputs.len(), |i: int| inputs[i].name@)
}

/// How the merged decoder is fed.
pub struct DecoderPlan {
    /// The cache inputs.
    pub past: Vec<String>,
    /// The output that each is filled from.
    pub present: Vec<String>,
    pub heads: i64,
    pub head_dim: i64,
    /// Whether it is told which branch to take.
    pub branch_flag: bool,
}

/// Why a decoder cannot be fed.
#[derive(Debug, Clone, Copy, PartialEq, Eq, Structural)]
pub enum DecoderError {
    /// It has no cache inputs.
    NoCache,
    /// The cache is not of four dimensions.
    CacheShape,
}

/// The name of the input that says which branch to take.
pub const BRANCH_FLAG: &'static str = "use_cache_branch";

/// How a merged decoder with these inputs is fed. The cache inputs are all of the
/// first one's shape: batch, heads, length, head width.
pub fn plan_decoder(inputs: &Vec<DecoderInput>) -> (r: Result<DecoderPlan, DecoderError>)
    ensures
        past_of(input_names(inputs@)).len() == 0 ==> r == Err::<DecoderPlan, DecoderError>(
            DecoderError::NoCache,
        ),
        forall|i: int| #[trigger]
            first_past(input_names(inputs@), i) ==> {
                &&& inputs@[i].dims@.len() != 4 ==> r == Err::<DecoderPlan, DecoderError>(
                    DecoderError::CacheShape,
                )
                &&& inputs@[i].dims@.len() == 4 ==> (r matches Ok(plan) && plan.heads
                    == inputs@[i].dims@[1] && plan.head_dim == inputs@[i].dims@[3])
            },
        r matches Ok(plan) ==> {
            &&& texts(plan.past@) == past_of(input_names(inputs@))
            &&& plan.present.len() == plan.past.len()
            &&& forall|i: int|
                0 <= i < plan.present.len() ==> (#[trigger] plan.present@[i])@ == present_of(
                    plan.past@[i]@,
                )
            &&& plan.branch_flag == input_names(inputs@).contains(BRANCH_FLAG@)
        },
{
    let ghost names = input_names(inputs@);
    let prefix: Vec<char> = chars_of(PAST_PREFIX);
    let flag: Vec<char> = chars_of(BRANCH_FLAG);
    let mut past: Vec<String> = Vec::new();
    let mut present: Vec<String> = Vec::new();
    let mut first: Option<usize> = None;
    let mut branch_flag: bool = false;
    let mut i: usize = 0;
    while i < inputs.len()
        invariant
            i <= inputs.len(),
            names == input_names(inputs@),
            prefix@ == PAST_PREFIX@,
            flag@ == BRANCH_FLAG@,
            texts(past@) == past_of(names.take(i as int)),
            present.len() == past.len(),
            forall|k: int|
                0 <= k < present.len() ==> (#[trigger] present@[k])@ == present_of(past@[k]@),
            branch_flag <==> exists|k: int| 0 <= k < i && #[trigger] names[k] == BRANCH_FLAG@,
            match first {
                Some(k) => k < i && first_past(names, k as int) && past.len() > 0,
                None => past.len() == 0 && forall|k: int|
                    0 <= k < i ==> !is_past(#[trigger] names[k]),
            },
        decreases inputs.len() - i,
    {
        let ghost before = texts(past@);
        let name: Vec<char> = chars_of(inputs[i].name.as_str());
        proof {
            assert(names.take(i as int + 1).drop_last() == names.take(i as int));
            assert(names.take(i as int + 1).last() == names[i as int]);
            assert(names[i as int] == name@);
        }
        if same(name.as_slice(), flag.as_slice()) {
            branch_flag = true;
        }
        if occurs(name.as_slice(), prefix.as_slice(), 0) {
            if first.is_none() {
                first = Some(i);
            }
            let mut out: Vec<char> = chars_of("present.");
            append(&mut out, part(name.as_slice(), prefix.len(), name.len()).as_slice());
            assert(name@.subrange(prefix@.len() as int, name@.len() as int) == name@.skip(
                prefix@.len() as int,
            ));
            past.push(string_of(name.as_slice()));
            present.push(string_of(out.as_slice()));
            assert(texts(past@) == before.push(names[i as int]));
        }
        i += 1;
    }
    assert(names.take(i as int) == names);
    assert(texts(past@).len() == past@.len());
    match first {
        Some(k) => {
            proof {
                assert forall|j: int| #[trigger] first_past(names, j) implies j == k by {
                    if j < k {
                        assert(!is_past(names[j]));
                    } else if k < j {
                        assert(!is_past(names[k as int]));
                    }
                }
            }
            let dims: &Vec<i64> = &inputs[k].dims;
            if dims.len() != 4 {
                return Err(DecoderError::CacheShape);
            }
            Ok(DecoderPlan { past, present, heads: dims[1], head_dim: dims[3], branch_flag })
        },
        None => {
            assert forall|j: int| !#[trigger] first_past(names, j) by {}
            Err(DecoderError::NoCache)
        },
    }
}

/// Whether what a step returns for a cache input replaces what the input holds, by
/// its number of elements. The cache branch hands the encoder's K/V back empty;
/// those of the first step are kept.
pub fn replaces(elements: usize) -> (r: bool)
    ensures
        r == (elements > 0),
{
    elements > 0
}

/// The symbolic dimensions of an Optimum encoder and what they are pinned to: the
/// QNN compiler needs static shapes.
pub fn encoder_dims(n_mels: usize) -> (r: [(&'static str, i64); 3])
    requires
        n_mels <= i64::MAX,
    ensures
        r@[0].0@ == "batch_size"@ && r@[0].1 == 1,
        r@[1].0@ == "feature_size"@ && r@[1].1 == n_mels,
        r@[2].0@ == "encoder_sequence_length"@ && r@[2].1 == mel::N_FRAMES,
{
    [
        ("batch_size", 1),
        ("feature_size", n_mels as i64),
        ("encoder_sequence_length", mel::N_FRAMES as i64),
    ]
}

/// Where a 32-bit float stands in the total order of floats, by its bits: a
/// positive one by its magnitude, a negative one below all of those, the
/// further the larger its magnitude.
pub open spec fn float_rank(bits: u32) -> int {
    if bits < 0x8000_0000 {
        bits as int
    } else {
        -1 - (bits - 0x8000_0000)
    }
}

/// Floats are ordered by their bits as by their values: those with the sign bit
/// clear rise with the bits, those with it set fall, and stand below the others.
pub proof fn law_floats_rise_with_their_values(a: u32, b: u32)
    ensures
        a < 0x8000_0000 && b < 0x8000_0000 ==> (float_rank(a) < float_rank(b) <==> a < b),
        a >= 0x8000_0000 && b >= 0x8000_0000 ==> (float_rank(a) < float_rank(b) <==> a > b),
        a >= 0x8000_0000 && b < 0x8000_0000 ==> float_rank(a) < float_rank(b),
        float_rank(a) == float_rank(b) ==> a == b,
{
}

/// Where a float stands among floats.
pub fn float_key(bits: u32) -> (r: i32)
    ensures
        r == float_rank(bits),
{
    if bits < 0x8000_0000 {
        bits as i32
    } else {
        -1 - ((bits - 0x8000_0000) as i32)
    }
}

/// The place of the greatest of some floats, given by their bits: the last one
/// where several are equal. `None` if there is none.
pub fn argmax(bits: &[u32]) -> (r: Option<usize>)
    ensures
        r is None <==> bits.len() == 0,
        r matches Some(i) ==> {
            &&& i < bits.len()
            &&& forall|j: int|
                0 <= j < bits.len() ==> float_rank(#[trigger] bits@[j]) <= float_rank(bits@[i as int])
            &&& forall|j: int|
                i < j < bits.len() ==> float_rank(#[trigger] bits@[j]) < float_rank(bits@[i as int])
        },
{
    if bits.len() == 0 {
        return None;
    }
    let mut best: usize = 0;
    let mut k: usize = 1;
    while k < bits.len()
        invariant
            best < k <= bits.len(),
            forall|j: int|
                0 <= j < k ==> float_rank(#[trigger] bits@[j]) <= float_rank(bits@[best as int]),
            forall|j: int|
                best < j < k ==> float_rank(#[trigger] bits@[j]) < float_rank(bits@[best as int]),
        decreases bits.len() - k,
    {
        if float_key(bits[k]) >= float_key(bits[best]) {
            best = k;
        }
        k += 1;
    }
    Some(best)
}

/// A decode in progress.
#[verifier::ext_equal]
pub ghost struct DecodeView {
    /// The start sequence.
    pub prefix: Seq<u32>,
    /// The start sequence and the tokens that followed.
    pub tokens: Seq<u32>,
    pub eot: u32,
    /// Whether the decoder has answered yet.
    pub started: bool,
    /// Whether the end of the text, or a loop, has come.
    pub stopped: bool,
}

/// The tokens after one more, and whether that is the end. Greedy whisper can
/// lock into a loop on noise; then one copy is kept, and the text ends there.
pub open spec fn with_next(start: int, tokens: Seq<u32>, eot: u32, next: u32) -> (Seq<u32>, bool) {
    let pushed = tokens.push(next);
    if next == eot {
        (pushed, true)
    } else {
        match loop_period(pushed.skip(start)) {
            Some(p) => (pushed.take(pushed.len() - 2 * p).push(eot), true),
            None => (pushed, false),
        }
    }
}

impl DecodeView {
    /// A decode that starts with `prefix`.
    pub open spec fn start(prefix: Seq<u32>, eot: u32) -> DecodeView {
        DecodeView { prefix, tokens: prefix, eot, started: false, stopped: false }
    }

    /// Whether there is a token still to come.
    pub open spec fn running(self) -> bool {
        !self.stopped && self.tokens.len() < N_CTX
    }

    /// What the decoder is fed: everything at first, and then, its cache holding
    /// the rest, the last token.
    pub open spec fn input(self) -> Seq<u32> {
        if self.started {
            seq![self.tokens.last()]
        } else {
            self.tokens
        }
    }

    /// The decode once the decoder has answered `next`.
    pub open spec fn after(self, next: u32) -> DecodeView {
        let (tokens, stopped) = with_next(self.prefix.len() as int, self.tokens, self.eot, next);
        DecodeView { tokens, stopped, started: true, ..self }
    }

    /// What holds of every decode: it keeps its start sequence, it fits the
    /// context unless the start sequence alone did not, and the end-of-text
    /// token stands behind the start sequence only as the last one, when the
    /// decode has stopped.
    pub open spec fn sound(self) -> bool {
        &&& self.prefix.len() <= self.tokens.len()
        &&& self.tokens.take(self.prefix.len() as int) == self.prefix
        &&& self.tokens.len() <= N_CTX || self.tokens == self.prefix
        &&& self.started ==> self.tokens.len() > self.prefix.len()
        &&& self.stopped ==> self.started
        &&& forall|i: int|
            #![trigger self.tokens[i]]
            self.prefix.len() <= i < self.tokens.len() ==> (self.tokens[i] == self.eot <==> (
            self.stopped && i == self.tokens.len() - 1))
    }
}

/// A cycle fits the sequence that it ends.
pub proof fn lemma_loop_period(tokens: Seq<u32>, p: int)
    requires
        1 <= p,
    ensures
        period_from(tokens, p) matches Some(q) ==> p <= q <= 8 && cycles(tokens, q) && forall|k: int|
            p <= k < q ==> !#[trigger] cycles(tokens, k),
        period_from(tokens, p) is None ==> forall|k: int| p <= k <= 8 ==> !#[trigger] cycles(tokens, k),
    decreases 9 - p,
{
    if p <= 8 && !cycles(tokens, p) {
        lemma_loop_period(tokens, p + 1);
    }
}

/// Every decode starts sound, and stays so whatever the decoder answers.
pub proof fn law_decoding_stays_sound(d: DecodeView, next: u32)
    ensures
        DecodeView::start(d.prefix, d.eot).sound(),
        d.sound() && d.running() ==> d.after(next).sound(),
{
    let fresh = DecodeView::start(d.prefix, d.eot);
    assert(fresh.tokens.take(d.prefix.len() as int) == d.prefix);
    if d.sound() && d.running() {
        let a = d.after(next);
        let start = d.prefix.len() as int;
        let pushed = d.tokens.push(next);
        lemma_loop_period(pushed.skip(start), 1);
        assert(a.tokens.take(start) == d.tokens.take(start));
        assert forall|i: int|
            #![trigger a.tokens[i]]
            a.prefix.len() <= i < a.tokens.len() implies (a.tokens[i] == a.eot <==> (a.stopped && i
            == a.tokens.len() - 1)) by {
            if i < a.tokens.len() - 1 {
                assert(a.tokens[i] == d.tokens[i]);
            }
        }
    }
}

/// Every decode ends, whatever the decoder answers: an answer either stops it or
/// leaves one place less in the context.
pub proof fn law_every_decode_ends(d: DecodeView, next: u32)
    requires
        d.running(),
    ensures
        d.after(next).stopped || d.after(next).tokens == d.tokens.push(next),
        !d.after(next).running() || N_CTX - d.after(next).tokens.len() < N_CTX - d.tokens.len(),
{
}

/// The decoder is asked until the text ends or the context of 448 is full. It is
/// fed the whole start sequence at first, and then one token at a time: its own
/// last answer, unless that ended the text.
pub proof fn law_the_decoder_is_fed_its_answers(
    d: DecodeView,
    prefix: Seq<u32>,
    eot: u32,
    next: u32,
)
    ensures
        DecodeView::start(prefix, eot).input() == prefix,
        DecodeView::start(prefix, eot).running() <==> prefix.len() < 448,
        next == d.eot ==> !d.after(next).running() && d.after(next).tokens == d.tokens.push(next),
        d.after(next).running() ==> d.after(next).input() == seq![next] && d.tokens.len() + 1 < 448,
        !d.after(next).stopped ==> d.after(next).tokens == d.tokens.push(next),
        !d.after(next).stopped ==> loop_period(
            d.tokens.push(next).skip(d.prefix.len() as int),
        ) is None,
{
}

/// A loop is cut to one copy: where the decoder has said the same `p` tokens
/// three times over, they stay once, and the end-of-text token follows.
pub proof fn law_a_loop_keeps_one_copy(d: DecodeView, next: u32, head: Seq<u32>, cycle: Seq<u32>)
    requires
        d.sound(),
        next != d.eot,
        d.tokens.push(next) == d.prefix + head + cycle + cycle + cycle,
        loop_period(head + cycle + cycle + cycle) == Some(cycle.len() as int),
    ensures
        d.after(next).stopped,
        d.after(next).tokens == d.prefix + head + cycle + seq![d.eot],
{
    let pushed = d.tokens.push(next);
    let said = head + cycle + cycle + cycle;
    assert(pushed.skip(d.prefix.len() as int) == said);
    assert(pushed.take(pushed.len() - 2 * cycle.len()) == d.prefix + head + cycle);
    assert((d.prefix + head + cycle).push(d.eot) == d.prefix + head + cycle + seq![d.eot]);
}

/// Greedy decoding through a decoder that the caller runs: it asks for the
/// decoder's input, and takes the decoder's answer, until there is no more to
/// ask.
pub struct Decoding {
    tokens: Vec<u32>,
    start: usize,
    eot: u32,
    started: bool,
    stopped: bool,
}

impl View for Decoding {
    type V = DecodeView;

    closed spec fn view(&self) -> DecodeView {
        DecodeView {
            prefix: self.tokens@.take(self.start as int),
            tokens: self.tokens@,
            eot: self.eot,
            started: self.started,
            stopped: self.stopped,
        }
    }
}

/// Appends a token to those of a decode, and says whether that is the end.
pub fn push_next(tokens: &mut Vec<u32>, start: usize, eot: u32, next: u32) -> (stopped: bool)
    requires
        start <= old(tokens).len() < usize::MAX,
    ensures
        (final(tokens)@, stopped) == with_next(start as int, old(tokens)@, eot, next),
{
    tokens.push(next);
    let ghost pushed = tokens@;
    if next == eot {
        return true;
    }
    let said: &[u32] = vstd::slice::slice_subrange(tokens.as_slice(), start, tokens.len());
    assert(said@ == pushed.skip(start as int));
    match repeating(said) {
        Some(p) => {
            let keep: usize = tokens.len() - 2 * p;
            tokens.truncate(keep);
            assert(tokens@ == pushed.take(pushed.len() - 2 * p));
            tokens.push(eot);
            true
        },
        None => false,
    }
}

impl Decoding {
    #[verifier::type_invariant]
    spec fn well_formed(self) -> bool {
        &&& self.start <= self.tokens.len()
        &&& self@.sound()
    }

    /// A decode that starts with `prefix`.
    pub fn new(prefix: &[u32], eot: u32) -> (r: Decoding)
        ensures
            r@ == DecodeView::start(prefix@, eot),
    {
        let mut tokens: Vec<u32> = Vec::new();
        extend_ids(&mut tokens, prefix, 0);
        assert(tokens@ == prefix@);
        proof {
            law_decoding_stays_sound(DecodeView::start(prefix@, eot), 0);
            assert(tokens@.take(prefix.len() as int) == prefix@);
        }
        Decoding { tokens, start: prefix.len(), eot, started: false, stopped: false }
    }

    /// What to feed the decoder next; `None` at the end.
    pub fn input(&self) -> (r: Option<Vec<u32>>)
        ensures
            r is Some <==> self@.running(),
            r matches Some(ids) ==> ids@ == self@.input(),
    {
        proof {
            use_type_invariant(self);
        }
        if self.stopped || self.tokens.len() >= N_CTX {
            return None;
        }
        let mut ids: Vec<u32> = Vec::new();
        if self.started {
            ids.push(self.tokens[self.tokens.len() - 1]);
        } else {
            extend_ids(&mut ids, self.tokens.as_slice(), 0);
        }
        assert(ids@ == self@.input());
        Some(ids)
    }

    /// Whether the decoder's cache holds what came before its input.
    pub fn uses_cache(&self) -> (r: bool)
        ensures
            r == self@.started,
    {
        self.started
    }

    /// Takes the decoder's answer.
    pub fn accept(self, next: u32) -> (r: Decoding)
        requires
            self@.running(),
        ensures
            r@ == self@.after(next),
    {
        proof {
            use_type_invariant(&self);
            law_decoding_stays_sound(self@, next);
        }
        let ghost before = self@;
        let Decoding { tokens, start, eot, started: _, stopped: _ } = self;
        let mut tokens = tokens;
        let stopped: bool = push_next(&mut tokens, start, eot, next);
        assert(tokens@.take(start as int) == before.prefix) by {
            assert(before.after(next).tokens.take(start as int) == before.prefix);
        }
        Decoding { tokens, start, eot, started: true, stopped }
    }

    /// The start sequence and what followed.
    pub fn finish(self) -> (r: Vec<u32>)
        ensures
            r@ == self@.tokens,
            self@.sound(),
    {
        proof {
            use_type_invariant(&self);
        }
        self.tokens
    }
}

// ---------------------------------------------------------------------------
// Sessions
// ---------------------------------------------------------------------------

/// Where a graph ended up.
#[derive(Debug, Clone, Copy, PartialEq, Eq, Structural)]
pub enum Placement {
    Npu,
    Cpu,
}

/// Where a graph runs: on the NPU when there is one and the session there was
/// built, on the CPU otherwise.
pub fn placement(npu: bool, built: bool) -> (r: Placement)
    ensures
        r == (if npu && built {
            Placement::Npu
        } else {
            Placement::Cpu
        }),
{
    if npu && built {
        Placement::Npu
    } else {
        Placement::Cpu
    }
}

/// What the engine calls itself, by where its encoder and its static decoder
/// (if it has one) run.
pub fn engine_name(encoder: Placement, decoder: Option<Placement>) -> (r: &'static str)
    ensures
        r@ == match (encoder, decoder) {
            (Placement::Npu, Some(Placement::Npu)) => "ONNX Runtime (NPU)"@,
            (Placement::Npu, _) => "ONNX Runtime (NPU encoder)"@,
            (Placement::Cpu, _) => "ONNX Runtime (CPU)"@,
        },
{
    match (encoder, decoder) {
        (Placement::Npu, Some(Placement::Npu)) => "ONNX Runtime (NPU)",
        (Placement::Npu, _) => "ONNX Runtime (NPU encoder)",
        (Placement::Cpu, _) => "ONNX Runtime (CPU)",
    }
}

/// What to do next for a session on the NPU.
#[derive(Debug, Clone, Copy, PartialEq, Eq, Structural)]
pub enum NpuStep {
    /// Compile the model into the cache, with no extra options, and drop that
    /// session: one that generates the context skips some of the EP's setup.
    Precompile,
    /// Load the compiled context from the cache, with the extra options. If it
    /// is stale or damaged, delete it.
    LoadContext,
    /// Compile the model, with the extra options, into the cache if there is one.
    Compile,
    /// The session of the last step is the one to use.
    Ready,
    /// The last step's error is the outcome.
    Failed,
    /// The model was compiled, but the cache has no context.
    NoContext,
}

/// The first step for a session, by whether there is a cache, whether there are
/// extra options, and whether the cache has the context.
pub open spec fn npu_start(cached: bool, extra: bool, context: bool) -> NpuStep {
    if cached && context {
        NpuStep::LoadContext
    } else if cached && extra {
        NpuStep::Precompile
    } else {
        NpuStep::Compile
    }
}

/// The step after one, by whether that went well and whether the cache then has
/// the context.
pub open spec fn npu_after(step: NpuStep, ok: bool, context: bool) -> NpuStep {
    match step {
        NpuStep::Precompile => if !ok {
            NpuStep::Failed
        } else if context {
            NpuStep::LoadContext
        } else {
            NpuStep::NoContext
        },
        NpuStep::LoadContext => if ok {
            NpuStep::Ready
        } else {
            NpuStep::Compile
        },
        NpuStep::Compile => if ok {
            NpuStep::Ready
        } else {
            NpuStep::Failed
        },
        done => done,
    }
}

/// The first step for a session on the NPU.
pub fn first_npu_step(cached: bool, extra: bool, context: bool) -> (r: NpuStep)
    ensures
        r == npu_start(cached, extra, context),
{
    if cached && extra && !context {
        return NpuStep::Precompile;
    }
    if cached && context {
        NpuStep::LoadContext
    } else {
        NpuStep::Compile
    }
}

/// The step after `step`.
pub fn next_npu_step(step: NpuStep, ok: bool, context: bool) -> (r: NpuStep)
    ensures
        r == npu_after(step, ok, context),
{
    match step {
        NpuStep::Precompile => {
            if !ok {
                NpuStep::Failed
            } else if !context {
                NpuStep::NoContext
            } else {
                NpuStep::LoadContext
            }
        },
        NpuStep::LoadContext => {
            if ok {
                NpuStep::Ready
            } else {
                NpuStep::Compile
            }
        },
        NpuStep::Compile => {
            if ok {
                NpuStep::Ready
            } else {
                NpuStep::Failed
            }
        },
        NpuStep::Ready => NpuStep::Ready,
        NpuStep::Failed => NpuStep::Failed,
        NpuStep::NoContext => NpuStep::NoContext,
    }
}

/// Whether nothing is left to do.
pub open spec fn npu_settled(step: NpuStep) -> bool {
    step is Ready || step is Failed || step is NoContext
}

/// However the steps go, the matter is settled after three. A session with
/// extra options is never the one that fills an empty cache, unless the context
/// that was there could not be loaded.
pub proof fn law_npu_steps_settle(
    cached: bool,
    extra: bool,
    context: bool,
    first: (bool, bool),
    second: (bool, bool),
    third: (bool, bool),
)
    ensures
        ({
            let one = npu_start(cached, extra, context);
            let two = npu_after(one, first.0, first.1);
            let three = npu_after(two, second.0, second.1);
            &&& npu_settled(npu_after(three, third.0, third.1))
            &&& cached && extra ==> !(one is Compile)
            &&& cached && extra && two is Compile ==> one is LoadContext && !first.0
            &&& cached && extra && three is Compile ==> two is LoadContext && !second.0
        }),
{
}

/// A key and its value.
pub open spec fn option_views(options: Seq<(String, String)>) -> Seq<(Seq<char>, Seq<char>)> {
    Seq::new(options.len(), |i: int| (options[i].0@, options[i].1@))
}

/// The options of the QNN EP, under the name that it is registered with: the
/// backend, and then the extra ones.
pub open spec fn qnn_options(
    ep: Seq<char>,
    extra: Seq<(Seq<char>, Seq<char>)>,
) -> Seq<(Seq<char>, Seq<char>)> {
    seq![(ep + ".backend_type"@, "htp"@)] + Seq::new(
        extra.len(),
        |i: int| (ep + "."@ + extra[i].0, extra[i].1),
    )
}

/// The options of the QNN EP.
pub fn ep_options(ep: &str, extra: &Vec<(String, String)>) -> (r: Vec<(String, String)>)
    ensures
        option_views(r@) == qnn_options(ep@, option_views(extra@)),
{
    let ghost all = option_views(extra@);
    let ghost want = qnn_options(ep@, all);
    let mut key: Vec<char> = chars_of(ep);
    append_str(&mut key, ".backend_type");
    let mut r: Vec<(String, String)> = Vec::new();
    r.push((string_of(key.as_slice()), "htp".to_string()));
    assert(option_views(r@) == want.take(1));
    let mut i: usize = 0;
    while i < extra.len()
        invariant
            i <= extra.len(),
            all == option_views(extra@),
            want == qnn_options(ep@, all),
            option_views(r@) == want.take(i + 1),
        decreases extra.len() - i,
    {
        let ghost before = r@;
        let mut key: Vec<char> = chars_of(ep);
        append_str(&mut key, ".");
        append_str(&mut key, extra[i].0.as_str());
        r.push((string_of(key.as_slice()), extra[i].1.clone()));
        proof {
            assert(want[i + 1] == (ep@ + "."@ + all[i as int].0, all[i as int].1));
            assert(option_views(r@) == option_views(before).push(want[i + 1]));
            assert(want.take(i + 2) == want.take(i + 1).push(want[i + 1]));
        }
        i += 1;
    }
    assert(want.take(i + 1) == want);
    r
}

/// The file name of a compiled context: one per graph file, keyed by the model
/// directory, the file stem and its size, so that a swapped model never picks up
/// the old compile.
pub open spec fn context_file(model: Option<Seq<char>>, stem: Seq<char>, size: u64) -> Seq<char> {
    let model = match model {
        Some(m) => m,
        None => "model"@,
    };
    if stem == "encoder_model"@ {
        model + "-"@ + decimal(size as nat) + ".onnx"@
    } else {
        model + "-"@ + stem + "-"@ + decimal(size as nat) + ".onnx"@
    }
}

/// A swapped model never picks up the old compile: graphs of other sizes have other
/// contexts.
pub proof fn law_a_swapped_model_compiles_anew(
    model: Option<Seq<char>>,
    stem: Seq<char>,
    a: u64,
    b: u64,
)
    requires
        a != b,
    ensures
        context_file(model, stem, a) != context_file(model, stem, b),
{
    let front = match model {
        Some(m) => m,
        None => "model"@,
    } + "-"@ + if stem == "encoder_model"@ {
        Seq::empty()
    } else {
        stem + "-"@
    };
    let (x, y) = (context_file(model, stem, a), context_file(model, stem, b));
    let n = front.len() as int;
    let end = ".onnx"@.len() as int;
    assert(x == front + decimal(a as nat) + ".onnx"@);
    assert(y == front + decimal(b as nat) + ".onnx"@);
    if x == y {
        assert(x.subrange(n, x.len() - end) == decimal(a as nat));
        assert(y.subrange(n, y.len() - end) == decimal(b as nat));
        crate::text::lemma_decimal_tells_apart(a as nat, b as nat);
    }
}

/// Every graph of a model has a context of its own, and every model has its own.
pub proof fn law_every_graph_has_its_context(
    model: Seq<char>,
    other: Seq<char>,
    a: Seq<char>,
    b: Seq<char>,
    size: u64,
)
    ensures
        a != b ==> context_file(Some(model), a, size) != context_file(Some(model), b, size),
        model != other ==> context_file(Some(model), a, size) != context_file(Some(other), a, size),
{
    reveal_strlit("-");
    let tail = decimal(size as nat) + ".onnx"@;
    let (x, y, z) = (
        context_file(Some(model), a, size),
        context_file(Some(model), b, size),
        context_file(Some(other), a, size),
    );
    let m = model.len() as int + 1;
    if a != b && x == y {
        if a != "encoder_model"@ && b != "encoder_model"@ {
            assert(x == model + "-"@ + a + "-"@ + tail);
            assert(y == model + "-"@ + b + "-"@ + tail);
            assert(x.len() == m + a.len() + 1 + tail.len());
            assert(y.len() == m + b.len() + 1 + tail.len());
            assert(x.subrange(m, m + a.len()) == a);
            assert(y.subrange(m, m + b.len()) == b);
        } else if a == "encoder_model"@ {
            assert(x == model + "-"@ + tail);
            assert(y == model + "-"@ + b + "-"@ + tail);
            assert(x.len() == m + tail.len());
            assert(y.len() == m + b.len() + 1 + tail.len());
        } else {
            assert(y == model + "-"@ + tail);
            assert(x == model + "-"@ + a + "-"@ + tail);
            assert(y.len() == m + tail.len());
            assert(x.len() == m + a.len() + 1 + tail.len());
        }
    }
    if model != other && x == z {
        let back = if a == "encoder_model"@ {
            tail
        } else {
            a + "-"@ + tail
        };
        assert(x == model + "-"@ + back);
        assert(z == other + "-"@ + back);
        assert(x.len() == model.len() + 1 + back.len());
        assert(z.len() == other.len() + 1 + back.len());
        assert(x.take(model.len() as int) == model);
        assert(z.take(other.len() as int) == other);
    }
}

/// Where the context of a graph lives: the parts of its path below the cache
/// directory. `model` is the name of the directory above the graph's own, and
/// `size` the graph's length; either may be unknown.
pub fn context_path(model: Option<&str>, stem: &str, size: Option<u64>) -> (r: (
    &'static str,
    String,
))
    ensures
        r.0@ == "qnn"@,
        r.1@ == context_file(
            contents(model),
            stem@,
            match size {
                Some(n) => n,
                None => 0,
            },
        ),
{
    let mut name: Vec<char> = match model {
        Some(m) => chars_of(m),
        None => chars_of("model"),
    };
    let size: u64 = match size {
        Some(n) => n,
        None => 0,
    };
    append_str(&mut name, "-");
    if !same(chars_of(stem).as_slice(), chars_of("encoder_model").as_slice()) {
        append_str(&mut name, stem);
        append_str(&mut name, "-");
    }
    append(&mut name, decimal_of(size).as_slice());
    append_str(&mut name, ".onnx");
    ("qnn", string_of(name.as_slice()))
}

/// The file that ORT writes beside a context: `<stem>_qnn.bin`.
pub fn context_binary(stem: &str) -> (r: String)
    ensures
        r@ == stem@ + "_qnn.bin"@,
{
    let mut name: Vec<char> = chars_of(stem);
    append_str(&mut name, "_qnn.bin");
    string_of(name.as_slice())
}

// ---------------------------------------------------------------------------
// Loading an engine
// ---------------------------------------------------------------------------

/// Why a model directory cannot be loaded.
#[derive(Debug, Clone, Copy, PartialEq, Eq, Structural)]
pub enum LayoutError {
    NotADirectory,
    /// `onnx/encoder_model.onnx` is missing.
    NoEncoder,
    /// `onnx/decoder_model_merged.onnx` is missing.
    NoDecoder,
}

/// Whether a model directory has the Hugging Face ONNX export layout.
pub fn check_layout(is_dir: bool, encoder: bool, decoder: bool) -> (r: Result<(), LayoutError>)
    ensures
        r == (if !is_dir {
            Err(LayoutError::NotADirectory)
        } else if !encoder {
            Err(LayoutError::NoEncoder)
        } else if !decoder {
            Err(LayoutError::NoDecoder)
        } else {
            Ok(())
        }),
{
    if !is_dir {
        Err(LayoutError::NotADirectory)
    } else if !encoder {
        Err(LayoutError::NoEncoder)
    } else if !decoder {
        Err(LayoutError::NoDecoder)
    } else {
        Ok(())
    }
}

/// What is said of a model directory that cannot be loaded, by the paths of the
/// directory and of the two graphs.
pub open spec fn layout_text(
    e: LayoutError,
    dir: Seq<char>,
    encoder: Seq<char>,
    decoder: Seq<char>,
) -> Seq<char> {
    let missing = " is missing; expected the Hugging Face ONNX export layout"@;
    match e {
        LayoutError::NotADirectory => dir + " is not a directory"@,
        LayoutError::NoEncoder => encoder + missing,
        LayoutError::NoDecoder => decoder + missing,
    }
}

/// What is said of a model directory that cannot be loaded.
pub fn layout_message(e: LayoutError, dir: &str, encoder: &str, decoder: &str) -> (r: String)
    ensures
        r@ == layout_text(e, dir@, encoder@, decoder@),
{
    let mut text: Vec<char> = chars_of(
        match e {
            LayoutError::NotADirectory => dir,
            LayoutError::NoEncoder => encoder,
            LayoutError::NoDecoder => decoder,
        },
    );
    append_str(
        &mut text,
        match e {
            LayoutError::NotADirectory => " is not a directory",
            _ => " is missing; expected the Hugging Face ONNX export layout",
        },
    );
    string_of(text.as_slice())
}

/// What is said of an export that cannot be described, by the paths of its
/// `config.json` and `generation_config.json`.
pub open spec fn model_text(e: ModelError, config: Seq<char>, generation: Seq<char>) -> Seq<char> {
    match e {
        ModelError::ReadConfig => "read "@ + config,
        ModelError::ParseConfig => "parse "@ + config,
        ModelError::ReadGeneration => "read "@ + generation,
        ModelError::ParseGeneration => "parse "@ + generation,
        ModelError::Start => "decoder_start_token_id"@,
        ModelError::Eos => "eos_token_id"@,
        ModelError::Width => "d_model"@,
        ModelError::Layers => "decoder_layers"@,
        ModelError::Heads => "decoder_attention_heads"@,
        ModelError::Vocab => "vocab_size"@,
    }
}

/// What is said of an export that cannot be described.
pub fn model_message(e: ModelError, config: &str, generation: &str) -> (r: String)
    ensures
        r@ == model_text(e, config@, generation@),
{
    let (what, path): (&str, &str) = match e {
        ModelError::ReadConfig => ("read ", config),
        ModelError::ParseConfig => ("parse ", config),
        ModelError::ReadGeneration => ("read ", generation),
        ModelError::ParseGeneration => ("parse ", generation),
        ModelError::Start => {
            return "decoder_start_token_id".to_string();
        },
        ModelError::Eos => {
            return "eos_token_id".to_string();
        },
        ModelError::Width => {
            return "d_model".to_string();
        },
        ModelError::Layers => {
            return "decoder_layers".to_string();
        },
        ModelError::Heads => {
            return "decoder_attention_heads".to_string();
        },
        ModelError::Vocab => {
            return "vocab_size".to_string();
        },
    };
    let mut text: Vec<char> = chars_of(what);
    append_str(&mut text, path);
    string_of(text.as_slice())
}

/// The static decoder's cache length: whisper's whole context, or fewer slots
/// where the variable `COOEE_DEC_MAX` asks for that.
pub fn decoder_max_len(variable: Option<&str>) -> (r: usize)
    ensures
        r <= N_CTX,
        r == match variable {
            Some(v) => match crate::text::number(v@) {
                Some(n) => if n < N_CTX {
                    n
                } else {
                    N_CTX
                },
                None => N_CTX,
            },
            None => N_CTX,
        },
{
    match variable {
        Some(v) => match crate::text::parse_number(chars_of(v).as_slice()) {
            Some(n) => if n < N_CTX {
                n
            } else {
                N_CTX
            },
            None => N_CTX,
        },
        None => N_CTX,
    }
}

// ---------------------------------------------------------------------------
// Transcribing
// ---------------------------------------------------------------------------

/// The prompt's tokens. Whisper decodes as if the prompt preceded the audio, so
/// the text gets a leading space. Without merge rules there is no encoder, and
/// without `<|startofprev|>` no place for a prompt.
pub open spec fn prompt_tokens(
    vocab: Map<Seq<char>, u32>,
    merges: Option<Map<(Seq<char>, Seq<char>), usize>>,
    start_of_prev: Option<u32>,
    prompt: Option<Seq<char>>,
) -> Seq<u32> {
    match (prompt, start_of_prev, merges) {
        (Some(p), Some(_), Some(ranks)) => if trimmed(p).len() > 0 {
            text_ids(vocab, ranks, seq![' '] + trimmed(p))
        } else {
            Seq::empty()
        },
        _ => Seq::empty(),
    }
}

/// A prompt is encoded as text that goes on: with one space in front, and without
/// the whitespace at its ends; a blank one has no tokens.
pub proof fn law_a_prompt_goes_on(
    vocab: Map<Seq<char>, u32>,
    ranks: Map<(Seq<char>, Seq<char>), usize>,
    prev: u32,
    prompt: Seq<char>,
)
    requires
        prompt.len() > 0,
        !is_white(prompt[0]),
        !is_white(prompt.last()),
    ensures
        prompt_tokens(vocab, Some(ranks), Some(prev), Some(prompt)) == text_ids(
            vocab,
            ranks,
            seq![' '] + prompt,
        ),
        forall|other: Seq<char>|
            trimmed(other) == prompt ==> #[trigger] prompt_tokens(
                vocab,
                Some(ranks),
                Some(prev),
                Some(other),
            ) == text_ids(vocab, ranks, seq![' '] + prompt),
        forall|other: Seq<char>|
            trimmed(other).len() == 0 ==> (#[trigger] prompt_tokens(
                vocab,
                Some(ranks),
                Some(prev),
                Some(other),
            )).len() == 0,
        prompt_tokens(vocab, Some(ranks), Some(prev), None).len() == 0,
        prompt_tokens(vocab, None, Some(prev), Some(prompt)).len() == 0,
        prompt_tokens(vocab, Some(ranks), None, Some(prompt)).len() == 0,
{
    assert(trimmed(prompt) == prompt);
}

/// The prompt's tokens.
pub fn prompt_ids(tokenizer: &Tokenizer, generation: &Generation, prompt: Option<&str>) -> (r: Vec<
    u32,
>)
    ensures
        r@ == prompt_tokens(
            tokenizer.vocab(),
            tokenizer.merges(),
            generation.start_of_prev,
            contents(prompt),
        ),
{
    match prompt {
        Some(p) => {
            let p: Vec<char> = trim(chars_of(p).as_slice());
            if p.len() > 0 && generation.start_of_prev.is_some() {
                let mut text: Vec<char> = Vec::new();
                text.push(' ');
                append(&mut text, p.as_slice());
                assert(text@ == seq![' '] + p@);
                match tokenizer.encode(string_of(text.as_slice()).as_str()) {
                    Some(ids) => ids,
                    None => Vec::new(),
                }
            } else {
                Vec::new()
            }
        },
        None => Vec::new(),
    }
}

/// What a window's tokens say, behind its start sequence.
pub fn window_text(tokenizer: &Tokenizer, ids: &[u32], prefix_len: usize, eot: u32) -> (r: String)
    requires
        prefix_len <= ids.len(),
    ensures
        r@ == lossy_text(ids_bytes(tokenizer.tokens(), ids@.skip(prefix_len as int), eot)),
{
    let said: &[u32] = vstd::slice::slice_subrange(ids, prefix_len, ids.len());
    assert(said@ == ids@.skip(prefix_len as int));
    tokenizer.decode(said, eot)
}

/// The text of several windows: each one's trimmed, those with any, with a
/// space between two.
pub open spec fn windows_joined(windows: Seq<Seq<char>>) -> Seq<char>
    decreases windows.len(),
{
    if windows.len() == 0 {
        Seq::empty()
    } else {
        let before = windows_joined(windows.drop_last());
        let piece = trimmed(windows.last());
        if piece.len() == 0 {
            before
        } else if before.len() == 0 {
            piece
        } else {
            before + seq![' '] + piece
        }
    }
}

/// The windows follow each other in the text as they do in the audio: its words
/// are the words of each window in turn, and more windows only add to its end.
pub proof fn law_windows_stay_in_order(windows: Seq<Seq<char>>, n: int)
    requires
        0 <= n <= windows.len(),
    ensures
        words(windows_joined(windows)) == windows.map_values(|w: Seq<char>| words(w)).flatten(),
        windows_joined(windows.take(n)).len() <= windows_joined(windows).len(),
        windows_joined(windows.take(n)) == windows_joined(windows).take(
            windows_joined(windows.take(n)).len() as int,
        ),
    decreases windows.len(),
{
    let said = |w: Seq<char>| words(w);
    let each = windows.map_values(said);
    let all = windows_joined(windows);
    if windows.len() == 0 {
        assert(each.len() == 0);
    } else {
        let front = windows.drop_last();
        let last = windows.last();
        let before = windows_joined(front);
        let piece = trimmed(last);
        law_windows_stay_in_order(front, if n < windows.len() {
            n
        } else {
            0
        });
        lemma_words_trimmed(last);
        assert(each == front.map_values(said).push(words(last)));
        front.map_values(said).lemma_flatten_push(words(last));
        if piece.len() == 0 {
            assert(words(piece).len() == 0);
        } else if before.len() == 0 {
            assert(words(before) + words(piece) == words(piece));
        } else {
            lemma_words_apart(before, ' ', piece);
            assert(before.push(' ') + piece == all);
        }
        if n < windows.len() {
            assert(front.take(n) == windows.take(n));
        }
    }
    if n == windows.len() {
        assert(windows.take(n) == windows);
        assert(all.take(all.len() as int) == all);
    }
}

/// A blank window adds nothing, wherever it comes; the others follow each other
/// with one space between two, each without the whitespace at its ends.
pub proof fn law_windows_are_one_space_apart(windows: Seq<Seq<char>>)
    ensures
        (forall|i: int| 0 <= i < windows.len() ==> trimmed(#[trigger] windows[i]).len() > 0)
            ==> windows_joined(windows) == joined(
            windows.map_values(|w: Seq<char>| trimmed(w)),
            seq![' '],
        ),
        forall|i: int|
            0 <= i < windows.len() && trimmed(#[trigger] windows[i]).len() == 0 ==> windows_joined(
                windows.remove(i),
            ) == windows_joined(windows),
    decreases windows.len(),
{
    let each = windows.map_values(|w: Seq<char>| trimmed(w));
    if windows.len() > 0 {
        let front = windows.drop_last();
        law_windows_are_one_space_apart(front);
        if forall|i: int| 0 <= i < windows.len() ==> trimmed(#[trigger] windows[i]).len() > 0 {
            assert forall|i: int| 0 <= i < front.len() implies trimmed(#[trigger] front[i]).len()
                > 0 by {
                assert(front[i] == windows[i]);
            }
            assert(trimmed(windows[windows.len() - 1]).len() > 0);
            assert(each.drop_last() == front.map_values(|w: Seq<char>| trimmed(w)));
            if front.len() > 0 {
                assert(trimmed(front[0]).len() > 0);
                lemma_windows_say_something(front);
            }
        }
        assert forall|i: int|
            0 <= i < windows.len() && trimmed(
                #[trigger] windows[i],
            ).len() == 0 implies windows_joined(windows.remove(i)) == windows_joined(windows) by {
            if i < front.len() {
                assert(front[i] == windows[i]);
                assert(windows.remove(i).drop_last() == front.remove(i));
                assert(windows.remove(i).last() == windows.last());
            } else {
                assert(windows.remove(i) == front);
            }
        }
    }
}

/// A window that is not blank leaves some text.
proof fn lemma_windows_say_something(windows: Seq<Seq<char>>)
    requires
        windows.len() > 0,
        forall|i: int| 0 <= i < windows.len() ==> trimmed(#[trigger] windows[i]).len() > 0,
    ensures
        windows_joined(windows).len() > 0,
{
    assert(trimmed(windows[windows.len() - 1]).len() > 0);
}

/// The text of several windows.
pub fn join_windows(windows: &Vec<String>) -> (r: String)
    ensures
        r@ == windows_joined(texts(windows@)),
{
    let ghost all = texts(windows@);
    let mut text: Vec<char> = Vec::new();
    let mut i: usize = 0;
    while i < windows.len()
        invariant
            i <= windows.len(),
            all == texts(windows@),
            text@ == windows_joined(all.take(i as int)),
        decreases windows.len() - i,
    {
        proof {
            assert(all.take(i as int + 1).drop_last() == all.take(i as int));
            assert(all.take(i as int + 1).last() == windows@[i as int]@);
        }
        let ghost before = text@;
        let piece: Vec<char> = trim(chars_of(windows[i].as_str()).as_slice());
        if piece.len() > 0 {
            if text.len() > 0 {
                text.push(' ');
            } else {
                assert(before + piece@ == piece@);
            }
            append(&mut text, piece.as_slice());
            assert(before.push(' ') == before + seq![' ']);
        }
        i += 1;
    }
    assert(all.take(i as int) == all);
    string_of(text.as_slice())
}

} // verus!
