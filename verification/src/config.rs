//! The hyperparameters of a model, out of its file's metadata.

use crate::gguf::{Gguf, Value};
use vstd::prelude::*;

verus! {

/// The width of the residual stream.
pub const HIDDEN: usize = 2816;

/// The number of positions that a sequence may have.
pub const MAX_SEQ: usize = 2048;

/// A metadata entry that a model has to have.
#[derive(Debug, Clone, Copy, PartialEq, Eq)]
pub enum ConfigKey {
    BlockCount,
    HeadCount,
    HeadCountKv,
    SlidingWindowPattern,
    KeyLengthSwa,
    KeyLength,
    SlidingWindow,
    FreqBase,
    FreqBaseSwa,
    RmsEpsilon,
    FeedForwardLength,
    ExpertCount,
    ExpertUsedCount,
    ExpertFeedForwardLength,
    LogitSoftcapping,
}

/// What kind of value an entry has to have.
#[derive(Debug, Clone, Copy, PartialEq, Eq)]
pub enum ConfigKind {
    Number,
    Float,
    Numbers,
    Flags,
}

/// Why a file's metadata describes no model.
#[derive(Debug, Clone, Copy, PartialEq, Eq)]
pub enum ConfigError {
    /// There is no list of tokens.
    NoTokens,
    /// An entry is missing, or is no natural number.
    NotANumber(ConfigKey),
    /// An entry is missing, or is no single-precision number.
    NotAFloat(ConfigKey),
    /// An entry is missing, or is no array.
    NotAnArray(ConfigKey),
    /// A number does not fit the machine.
    TooLarge(ConfigKey),
}

impl ConfigKey {
    /// The name of the entry in the metadata.
    pub open spec fn name(self) -> Seq<char> {
        match self {
            ConfigKey::BlockCount => "gemma4.block_count"@,
            ConfigKey::HeadCount => "gemma4.attention.head_count"@,
            ConfigKey::HeadCountKv => "gemma4.attention.head_count_kv"@,
            ConfigKey::SlidingWindowPattern => "gemma4.attention.sliding_window_pattern"@,
            ConfigKey::KeyLengthSwa => "gemma4.attention.key_length_swa"@,
            ConfigKey::KeyLength => "gemma4.attention.key_length"@,
            ConfigKey::SlidingWindow => "gemma4.attention.sliding_window"@,
            ConfigKey::FreqBase => "gemma4.rope.freq_base"@,
            ConfigKey::FreqBaseSwa => "gemma4.rope.freq_base_swa"@,
            ConfigKey::RmsEpsilon => "gemma4.attention.layer_norm_rms_epsilon"@,
            ConfigKey::FeedForwardLength => "gemma4.feed_forward_length"@,
            ConfigKey::ExpertCount => "gemma4.expert_count"@,
            ConfigKey::ExpertUsedCount => "gemma4.expert_used_count"@,
            ConfigKey::ExpertFeedForwardLength => "gemma4.expert_feed_forward_length"@,
            ConfigKey::LogitSoftcapping => "gemma4.final_logit_softcapping"@,
        }
    }

    /// The kind of value that the entry has to have.
    pub open spec fn kind(self) -> ConfigKind {
        match self {
            ConfigKey::HeadCountKv => ConfigKind::Numbers,
            ConfigKey::SlidingWindowPattern => ConfigKind::Flags,
            ConfigKey::FreqBase | ConfigKey::FreqBaseSwa | ConfigKey::RmsEpsilon
            | ConfigKey::LogitSoftcapping => ConfigKind::Float,
            _ => ConfigKind::Number,
        }
    }

    /// The name of the entry in the metadata.
    pub fn text(&self) -> (s: &'static str)
        ensures
            s@ == self.name(),
    {
        match self {
            ConfigKey::BlockCount => "gemma4.block_count",
            ConfigKey::HeadCount => "gemma4.attention.head_count",
            ConfigKey::HeadCountKv => "gemma4.attention.head_count_kv",
            ConfigKey::SlidingWindowPattern => "gemma4.attention.sliding_window_pattern",
            ConfigKey::KeyLengthSwa => "gemma4.attention.key_length_swa",
            ConfigKey::KeyLength => "gemma4.attention.key_length",
            ConfigKey::SlidingWindow => "gemma4.attention.sliding_window",
            ConfigKey::FreqBase => "gemma4.rope.freq_base",
            ConfigKey::FreqBaseSwa => "gemma4.rope.freq_base_swa",
            ConfigKey::RmsEpsilon => "gemma4.attention.layer_norm_rms_epsilon",
            ConfigKey::FeedForwardLength => "gemma4.feed_forward_length",
            ConfigKey::ExpertCount => "gemma4.expert_count",
            ConfigKey::ExpertUsedCount => "gemma4.expert_used_count",
            ConfigKey::ExpertFeedForwardLength => "gemma4.expert_feed_forward_length",
            ConfigKey::LogitSoftcapping => "gemma4.final_logit_softcapping",
        }
    }
}

/// The hyperparameters of a model. Floating-point numbers are held as bit
/// patterns.
#[derive(Debug, Clone)]
pub struct Config {
    pub n_layers: usize,
    pub n_heads: usize,
    pub kv_heads: Vec<usize>,
    pub swa: Vec<bool>,
    pub head_dim_swa: usize,
    pub head_dim_full: usize,
    pub window: usize,
    pub rope_base_full: u32,
    pub rope_base_swa: u32,
    pub eps: u32,
    pub ffn: usize,
    pub n_experts: usize,
    pub topk: usize,
    pub moe_inter: usize,
    pub softcap: u32,
    pub vocab: usize,
    pub max_seq: usize,
}

/// The metadata of a file, by key.
pub type Metadata = Map<Seq<char>, crate::gguf::Meta>;

/// The natural number that an entry holds.
pub open spec fn number_at(meta: Metadata, key: ConfigKey) -> Option<u64> {
    if meta.contains_key(key.name()) {
        meta[key.name()].as_u64()
    } else {
        None
    }
}

/// The single-precision number that an entry holds.
pub open spec fn float_at(meta: Metadata, key: ConfigKey) -> Option<u32> {
    if meta.contains_key(key.name()) {
        match meta[key.name()] {
            crate::gguf::Meta::F32(v) => Some(v),
            _ => None,
        }
    } else {
        None
    }
}

/// The array under a key.
pub open spec fn array_at(meta: Metadata, key: Seq<char>) -> Option<Seq<crate::gguf::Meta>> {
    if meta.contains_key(key) {
        match meta[key] {
            crate::gguf::Meta::Arr(items) => Some(items),
            _ => None,
        }
    } else {
        None
    }
}

/// What keeps the elements of an array from being numbers of this machine. The
/// first that is none decides.
pub open spec fn elements_error(items: Seq<crate::gguf::Meta>, key: ConfigKey) -> Option<
    ConfigError,
>
    decreases items.len(),
{
    if items.len() == 0 {
        None
    } else {
        match elements_error(items.drop_last(), key) {
            Some(e) => Some(e),
            None => match items.last().as_u64() {
                None => Some(ConfigError::NotANumber(key)),
                Some(v) => if v > usize::MAX {
                    Some(ConfigError::TooLarge(key))
                } else {
                    None
                },
            },
        }
    }
}

/// What is wrong with an entry.
pub open spec fn entry_error(meta: Metadata, key: ConfigKey) -> Option<ConfigError> {
    match key.kind() {
        ConfigKind::Number => match number_at(meta, key) {
            None => Some(ConfigError::NotANumber(key)),
            Some(v) => if v > usize::MAX {
                Some(ConfigError::TooLarge(key))
            } else {
                None
            },
        },
        ConfigKind::Float => if float_at(meta, key) is None {
            Some(ConfigError::NotAFloat(key))
        } else {
            None
        },
        ConfigKind::Numbers => match array_at(meta, key.name()) {
            None => Some(ConfigError::NotAnArray(key)),
            Some(items) => elements_error(items, key),
        },
        ConfigKind::Flags => if array_at(meta, key.name()) is None {
            Some(ConfigError::NotAnArray(key))
        } else {
            None
        },
    }
}

/// The entries, in the order in which they are asked for.
pub open spec fn keys() -> Seq<ConfigKey> {
    seq![
        ConfigKey::BlockCount,
        ConfigKey::HeadCount,
        ConfigKey::HeadCountKv,
        ConfigKey::SlidingWindowPattern,
        ConfigKey::KeyLengthSwa,
        ConfigKey::KeyLength,
        ConfigKey::SlidingWindow,
        ConfigKey::FreqBase,
        ConfigKey::FreqBaseSwa,
        ConfigKey::RmsEpsilon,
        ConfigKey::FeedForwardLength,
        ConfigKey::ExpertCount,
        ConfigKey::ExpertUsedCount,
        ConfigKey::ExpertFeedForwardLength,
        ConfigKey::LogitSoftcapping,
    ]
}

/// What is wrong with the first bad entry from the `i`-th on.
pub open spec fn first_error(meta: Metadata, i: int) -> Option<ConfigError>
    decreases keys().len() - i,
{
    if i >= keys().len() {
        None
    } else {
        match entry_error(meta, keys()[i]) {
            Some(e) => Some(e),
            None => first_error(meta, i + 1),
        }
    }
}

/// What keeps the metadata from describing a model.
pub open spec fn config_error(meta: Metadata) -> Option<ConfigError> {
    if array_at(meta, "tokenizer.ggml.tokens"@) is None {
        Some(ConfigError::NoTokens)
    } else {
        first_error(meta, 0)
    }
}

impl Config {
    /// The hyperparameters are those that the metadata gives.
    pub open spec fn describes(&self, meta: Metadata) -> bool {
        &&& Some(self.n_layers as u64) == number_at(meta, ConfigKey::BlockCount)
        &&& Some(self.n_heads as u64) == number_at(meta, ConfigKey::HeadCount)
        &&& self.kv_heads@.len() == array_at(meta, ConfigKey::HeadCountKv.name())->0.len()
        &&& forall|i: int|
            0 <= i < self.kv_heads@.len() ==> Some(#[trigger] self.kv_heads@[i] as u64) == array_at(
                meta,
                ConfigKey::HeadCountKv.name(),
            )->0[i].as_u64()
        &&& self.swa@.len() == array_at(meta, ConfigKey::SlidingWindowPattern.name())->0.len()
        &&& forall|i: int|
            0 <= i < self.swa@.len() ==> #[trigger] self.swa@[i] == (array_at(
                meta,
                ConfigKey::SlidingWindowPattern.name(),
            )->0[i] == crate::gguf::Meta::Bool(true))
        &&& Some(self.head_dim_swa as u64) == number_at(meta, ConfigKey::KeyLengthSwa)
        &&& Some(self.head_dim_full as u64) == number_at(meta, ConfigKey::KeyLength)
        &&& Some(self.window as u64) == number_at(meta, ConfigKey::SlidingWindow)
        &&& Some(self.rope_base_full) == float_at(meta, ConfigKey::FreqBase)
        &&& Some(self.rope_base_swa) == float_at(meta, ConfigKey::FreqBaseSwa)
        &&& Some(self.eps) == float_at(meta, ConfigKey::RmsEpsilon)
        &&& Some(self.ffn as u64) == number_at(meta, ConfigKey::FeedForwardLength)
        &&& Some(self.n_experts as u64) == number_at(meta, ConfigKey::ExpertCount)
        &&& Some(self.topk as u64) == number_at(meta, ConfigKey::ExpertUsedCount)
        &&& Some(self.moe_inter as u64) == number_at(meta, ConfigKey::ExpertFeedForwardLength)
        &&& Some(self.softcap) == float_at(meta, ConfigKey::LogitSoftcapping)
        &&& self.vocab == array_at(meta, "tokenizer.ggml.tokens"@)->0.len()
        &&& self.max_seq == MAX_SEQ
    }

    /// The hyperparameters that a file's metadata gives.
    pub fn from_gguf(g: &Gguf) -> (r: Result<Config, ConfigError>)
        ensures
            match config_error(g@.meta) {
                Some(e) => r is Err && r->Err_0 == e,
                None => r is Ok && r->Ok_0.describes(g@.meta),
            },
    {
        let vocab: usize = match g.meta.get("tokenizer.ggml.tokens") {
            Some(Value::Arr(v)) => {
                proof {
                    crate::gguf::array_says_its_elements(*v);
                }
                v.len()
            },
            _ => {
                return Err(ConfigError::NoTokens);
            },
        };
        reveal_with_fuel(first_error, 17);
        let n_layers: usize = match number(g, ConfigKey::BlockCount) {
            Ok(v) => v,
            Err(e) => {
                return Err(e);
            },
        };
        let n_heads: usize = match number(g, ConfigKey::HeadCount) {
            Ok(v) => v,
            Err(e) => {
                return Err(e);
            },
        };
        let kv_heads = match numbers(g, ConfigKey::HeadCountKv) {
            Ok(v) => v,
            Err(e) => {
                return Err(e);
            },
        };
        let swa = match flags(g, ConfigKey::SlidingWindowPattern) {
            Ok(v) => v,
            Err(e) => {
                return Err(e);
            },
        };
        let head_dim_swa: usize = match number(g, ConfigKey::KeyLengthSwa) {
            Ok(v) => v,
            Err(e) => {
                return Err(e);
            },
        };
        let head_dim_full: usize = match number(g, ConfigKey::KeyLength) {
            Ok(v) => v,
            Err(e) => {
                return Err(e);
            },
        };
        let window: usize = match number(g, ConfigKey::SlidingWindow) {
            Ok(v) => v,
            Err(e) => {
                return Err(e);
            },
        };
        let rope_base_full: u32 = match float(g, ConfigKey::FreqBase) {
            Ok(v) => v,
            Err(e) => {
                return Err(e);
            },
        };
        let rope_base_swa: u32 = match float(g, ConfigKey::FreqBaseSwa) {
            Ok(v) => v,
            Err(e) => {
                return Err(e);
            },
        };
        let eps: u32 = match float(g, ConfigKey::RmsEpsilon) {
            Ok(v) => v,
            Err(e) => {
                return Err(e);
            },
        };
        let ffn: usize = match number(g, ConfigKey::FeedForwardLength) {
            Ok(v) => v,
            Err(e) => {
                return Err(e);
            },
        };
        let n_experts: usize = match number(g, ConfigKey::ExpertCount) {
            Ok(v) => v,
            Err(e) => {
                return Err(e);
            },
        };
        let topk: usize = match number(g, ConfigKey::ExpertUsedCount) {
            Ok(v) => v,
            Err(e) => {
                return Err(e);
            },
        };
        let moe_inter: usize = match number(g, ConfigKey::ExpertFeedForwardLength) {
            Ok(v) => v,
            Err(e) => {
                return Err(e);
            },
        };
        let softcap: u32 = match float(g, ConfigKey::LogitSoftcapping) {
            Ok(v) => v,
            Err(e) => {
                return Err(e);
            },
        };
        Ok(
            Config {
                n_layers,
                n_heads,
                kv_heads,
                swa,
                head_dim_swa,
                head_dim_full,
                window,
                rope_base_full,
                rope_base_swa,
                eps,
                ffn,
                n_experts,
                topk,
                moe_inter,
                softcap,
                vocab,
                max_seq: MAX_SEQ,
            },
        )
    }

    /// The width of an attention head of a layer.
    pub open spec fn head_width(&self, layer: int) -> usize {
        if self.swa@[layer] {
            self.head_dim_swa
        } else {
            self.head_dim_full
        }
    }

    /// The width of an attention head of a layer.
    pub fn head_dim(&self, layer: usize) -> (r: usize)
        requires
            layer < self.swa@.len(),
        ensures
            r == self.head_width(layer as int),
    {
        if self.swa[layer] {
            self.head_dim_swa
        } else {
            self.head_dim_full
        }
    }

    /// The base of the rotary frequencies of a layer, as a bit pattern.
    pub fn rope_base(&self, layer: usize) -> (r: u32)
        requires
            layer < self.swa@.len(),
        ensures
            r == if self.swa@[layer as int] {
                self.rope_base_swa
            } else {
                self.rope_base_full
            },
    {
        if self.swa[layer] {
            self.rope_base_swa
        } else {
            self.rope_base_full
        }
    }
}

/// The number that an entry holds.
fn number(g: &Gguf, key: ConfigKey) -> (r: Result<usize, ConfigError>)
    requires
        key.kind() == ConfigKind::Number,
    ensures
        match entry_error(g@.meta, key) {
            Some(e) => r == Err::<usize, ConfigError>(e),
            None => r is Ok && Some(r->Ok_0 as u64) == number_at(g@.meta, key),
        },
{
    match g.meta.get(key.text()) {
        Some(v) => match v.as_u64() {
            Some(n) => if n > usize::MAX as u64 {
                Err(ConfigError::TooLarge(key))
            } else {
                Ok(n as usize)
            },
            None => Err(ConfigError::NotANumber(key)),
        },
        None => Err(ConfigError::NotANumber(key)),
    }
}

/// The single-precision number that an entry holds.
fn float(g: &Gguf, key: ConfigKey) -> (r: Result<u32, ConfigError>)
    requires
        key.kind() == ConfigKind::Float,
    ensures
        match entry_error(g@.meta, key) {
            Some(e) => r == Err::<u32, ConfigError>(e),
            None => r is Ok && Some(r->Ok_0) == float_at(g@.meta, key),
        },
{
    match g.meta.get(key.text()) {
        Some(Value::F32(v)) => Ok(*v),
        _ => Err(ConfigError::NotAFloat(key)),
    }
}

proof fn lemma_elements_error(items: Seq<crate::gguf::Meta>, key: ConfigKey, n: int)
    requires
        0 <= n <= items.len(),
        elements_error(items.take(n), key) is Some,
    ensures
        elements_error(items, key) == elements_error(items.take(n), key),
    decreases items.len() - n,
{
    if n < items.len() {
        assert(items.take(n + 1).drop_last() =~= items.take(n));
        lemma_elements_error(items, key, n + 1);
    } else {
        assert(items.take(n) =~= items);
    }
}

/// The numbers that an entry holds.
fn numbers(g: &Gguf, key: ConfigKey) -> (r: Result<Vec<usize>, ConfigError>)
    requires
        key.kind() == ConfigKind::Numbers,
    ensures
        match entry_error(g@.meta, key) {
            Some(e) => r is Err && r->Err_0 == e,
            None => {
                &&& r is Ok
                &&& r->Ok_0@.len() == array_at(g@.meta, key.name())->0.len()
                &&& forall|i: int|
                    0 <= i < r->Ok_0@.len() ==> Some(#[trigger] r->Ok_0@[i] as u64) == array_at(
                        g@.meta,
                        key.name(),
                    )->0[i].as_u64()
            },
        },
{
    match g.meta.get(key.text()) {
        Some(Value::Arr(items)) => {
            proof {
                crate::gguf::array_says_its_elements(*items);
            }
            let ghost all = crate::gguf::metas(items@);
            let mut r: Vec<usize> = Vec::new();
            let mut i: usize = 0;
            assert(all.take(0) =~= seq![]);
            while i < items.len()
                invariant
                    i <= items@.len(),
                    all == crate::gguf::metas(items@),
                    entry_error(g@.meta, key) == elements_error(all, key),
                    elements_error(all.take(i as int), key) is None,
                    r@.len() == i,
                    forall|j: int| 0 <= j < i ==> Some(#[trigger] r@[j] as u64) == all[j].as_u64(),
                decreases items@.len() - i,
            {
                assert(all.take(i + 1).drop_last() =~= all.take(i as int));
                assert(all.take(i + 1).last() == items@[i as int].meta());
                match items[i].as_u64() {
                    Some(n) => {
                        if n > usize::MAX as u64 {
                            proof {
                                lemma_elements_error(all, key, i + 1);
                            }
                            return Err(ConfigError::TooLarge(key));
                        }
                        r.push(n as usize);
                    },
                    None => {
                        proof {
                            lemma_elements_error(all, key, i + 1);
                        }
                        return Err(ConfigError::NotANumber(key));
                    },
                }
                i = i + 1;
            }
            assert(all.take(i as int) =~= all);
            Ok(r)
        },
        _ => Err(ConfigError::NotAnArray(key)),
    }
}

/// For each element of an entry, whether it is the flag `true`.
fn flags(g: &Gguf, key: ConfigKey) -> (r: Result<Vec<bool>, ConfigError>)
    requires
        key.kind() == ConfigKind::Flags,
    ensures
        match entry_error(g@.meta, key) {
            Some(e) => r is Err && r->Err_0 == e,
            None => {
                &&& r is Ok
                &&& r->Ok_0@.len() == array_at(g@.meta, key.name())->0.len()
                &&& forall|i: int|
                    0 <= i < r->Ok_0@.len() ==> #[trigger] r->Ok_0@[i] == (array_at(
                        g@.meta,
                        key.name(),
                    )->0[i] == crate::gguf::Meta::Bool(true))
            },
        },
{
    match g.meta.get(key.text()) {
        Some(Value::Arr(items)) => {
            proof {
                crate::gguf::array_says_its_elements(*items);
            }
            let ghost all = crate::gguf::metas(items@);
            let mut r: Vec<bool> = Vec::new();
            let mut i: usize = 0;
            while i < items.len()
                invariant
                    i <= items@.len(),
                    all == crate::gguf::metas(items@),
                    r@.len() == i,
                    forall|j: int|
                        0 <= j < i ==> #[trigger] r@[j] == (all[j] == crate::gguf::Meta::Bool(
                            true,
                        )),
                decreases items@.len() - i,
            {
                let flag = match &items[i] {
                    Value::Bool(b) => *b,
                    _ => false,
                };
                r.push(flag);
                i = i + 1;
            }
            Ok(r)
        },
        _ => Err(ConfigError::NotAnArray(key)),
    }
}

} // verus!
