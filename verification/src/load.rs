//! The weights of a model, out of its file: which tensors there are, how they are
//! joined and laid out, and what shape they have to have.

use crate::config::HIDDEN;
use crate::expert_bank::{fill_layer, ExpertShape};
use crate::gguf::{Gguf, GgufError, GgufView};
use crate::le_bytes::{get_u16, get_u32};
use crate::plan::Plan;
use crate::q4_0::{q4r_row_bytes, repack_q4r, row_bytes};
use vstd::prelude::*;
use vstd::string::StringExecFns;

verus! {

/// A tensor of a layer.
#[derive(Debug, Clone, Copy, PartialEq, Eq)]
pub enum Part {
    AttnQ,
    AttnK,
    AttnV,
    AttnOutput,
    FfnGate,
    FfnUp,
    FfnDown,
    AttnNorm,
    AttnQNorm,
    AttnKNorm,
    PostAttentionNorm,
    FfnNorm,
    PreFfwNorm2,
    PostFfwNorm,
    PostFfwNorm1,
    PostFfwNorm2,
    RouterWeight,
    RouterScale,
    ExpertScale,
    LayerScale,
    ExpertGateUp,
    ExpertDown,
    ExpertGate,
    ExpertUp,
}

/// Why a model's weights cannot be loaded.
#[derive(Debug, Clone, Copy, PartialEq, Eq)]
pub enum LoadError {
    /// A tensor of a layer is missing, or its data are.
    Layer(Part, GgufError),
    /// A tensor outside the layers is missing, or its data are.
    Global(GgufError),
    /// A tensor has not the shape that the model asks for.
    WrongShape(Part),
    /// A small tensor has a type that is not read.
    UnsupportedType(u32),
    /// The token table is not in the q6_k format.
    WrongEmbedding,
    /// A size does not fit the machine.
    TooLarge,
}

impl Part {
    /// What the name of the tensor ends in.
    pub open spec fn suffix(self) -> Seq<char> {
        match self {
            Part::AttnQ => "attn_q.weight"@,
            Part::AttnK => "attn_k.weight"@,
            Part::AttnV => "attn_v.weight"@,
            Part::AttnOutput => "attn_output.weight"@,
            Part::FfnGate => "ffn_gate.weight"@,
            Part::FfnUp => "ffn_up.weight"@,
            Part::FfnDown => "ffn_down.weight"@,
            Part::AttnNorm => "attn_norm.weight"@,
            Part::AttnQNorm => "attn_q_norm.weight"@,
            Part::AttnKNorm => "attn_k_norm.weight"@,
            Part::PostAttentionNorm => "post_attention_norm.weight"@,
            Part::FfnNorm => "ffn_norm.weight"@,
            Part::PreFfwNorm2 => "pre_ffw_norm_2.weight"@,
            Part::PostFfwNorm => "post_ffw_norm.weight"@,
            Part::PostFfwNorm1 => "post_ffw_norm_1.weight"@,
            Part::PostFfwNorm2 => "post_ffw_norm_2.weight"@,
            Part::RouterWeight => "ffn_gate_inp.weight"@,
            Part::RouterScale => "ffn_gate_inp.scale"@,
            Part::ExpertScale => "ffn_down_exps.scale"@,
            Part::LayerScale => "layer_output_scale.weight"@,
            Part::ExpertGateUp => "ffn_gate_up_exps.weight"@,
            Part::ExpertDown => "ffn_down_exps.weight"@,
            Part::ExpertGate => "ffn_gate_exps.weight"@,
            Part::ExpertUp => "ffn_up_exps.weight"@,
        }
    }

    fn text(&self) -> (s: &'static str)
        ensures
            s@ == self.suffix(),
    {
        match self {
            Part::AttnQ => "attn_q.weight",
            Part::AttnK => "attn_k.weight",
            Part::AttnV => "attn_v.weight",
            Part::AttnOutput => "attn_output.weight",
            Part::FfnGate => "ffn_gate.weight",
            Part::FfnUp => "ffn_up.weight",
            Part::FfnDown => "ffn_down.weight",
            Part::AttnNorm => "attn_norm.weight",
            Part::AttnQNorm => "attn_q_norm.weight",
            Part::AttnKNorm => "attn_k_norm.weight",
            Part::PostAttentionNorm => "post_attention_norm.weight",
            Part::FfnNorm => "ffn_norm.weight",
            Part::PreFfwNorm2 => "pre_ffw_norm_2.weight",
            Part::PostFfwNorm => "post_ffw_norm.weight",
            Part::PostFfwNorm1 => "post_ffw_norm_1.weight",
            Part::PostFfwNorm2 => "post_ffw_norm_2.weight",
            Part::RouterWeight => "ffn_gate_inp.weight",
            Part::RouterScale => "ffn_gate_inp.scale",
            Part::ExpertScale => "ffn_down_exps.scale",
            Part::LayerScale => "layer_output_scale.weight",
            Part::ExpertGateUp => "ffn_gate_up_exps.weight",
            Part::ExpertDown => "ffn_down_exps.weight",
            Part::ExpertGate => "ffn_gate_exps.weight",
            Part::ExpertUp => "ffn_up_exps.weight",
        }
    }
}

/// The digits of a number.
pub open spec fn decimal(n: nat) -> Seq<char>
    decreases n,
{
    let digit = seq!['0', '1', '2', '3', '4', '5', '6', '7', '8', '9'][(n % 10) as int];
    if n < 10 {
        seq![digit]
    } else {
        decimal(n / 10).push(digit)
    }
}

/// The name of a tensor of layer `l`.
pub open spec fn name_of(l: nat, part: Part) -> Seq<char> {
    "blk."@ + decimal(l) + "."@ + part.suffix()
}

fn push_decimal(s: &mut String, n: usize)
    ensures
        final(s)@ == old(s)@ + decimal(n as nat),
    decreases n,
{
    let digits: [char; 10] = ['0', '1', '2', '3', '4', '5', '6', '7', '8', '9'];
    let ghost before = s@;
    if n >= 10 {
        push_decimal(s, n / 10);
    }
    s.push(digits[n % 10]);
    assert(s@ =~= before + decimal(n as nat));
}

/// The name of a tensor of layer `l`.
pub fn tensor_name(l: usize, part: Part) -> (s: String)
    ensures
        s@ == name_of(l as nat, part),
{
    let mut s = "blk.".to_owned();
    push_decimal(&mut s, l);
    s.append(".");
    s.append(part.text());
    s
}

/// The data of a tensor of layer `l`.
pub open spec fn part_data(g: GgufView, l: nat, part: Part) -> Result<Seq<u8>, LoadError> {
    match g.data_range(name_of(l, part)) {
        Ok((start, end)) => Ok(g.bytes.subrange(start, end)),
        Err(e) => Err(LoadError::Layer(part, e)),
    }
}

/// The data of a tensor of layer `l`.
fn data_of<'a>(g: &Gguf<'a>, l: usize, part: Part) -> (r: Result<&'a [u8], LoadError>)
    ensures
        match part_data(g@, l as nat, part) {
            Ok(d) => r is Ok && r->Ok_0@ == d,
            Err(e) => r is Err && r->Err_0 == e,
        },
{
    let name = tensor_name(l, part);
    match g.tensor_data(name.as_str()) {
        Ok(d) => Ok(d),
        Err(e) => Err(LoadError::Layer(part, e)),
    }
}

/// A matrix of `rows` rows of `k` weights in the q4r layout.
pub open spec fn laid_out(src: Seq<u8>, rows: int, k: int, part: Part) -> Result<
    Seq<u8>,
    LoadError,
> {
    if src.len() != crate::q4_0::matrix_bytes(rows, k) {
        Err(LoadError::WrongShape(part))
    } else if crate::q4_0::matrix_bytes_r(rows, k) > usize::MAX {
        Err(LoadError::TooLarge)
    } else {
        Ok(crate::q4_0::repacked_rows(src, rows, k))
    }
}

/// Lays a matrix out.
fn lay_out(src: &[u8], rows: usize, k: usize, part: Part) -> (r: Result<Vec<u8>, LoadError>)
    requires
        k > 0,
        k % 32 == 0,
    ensures
        match laid_out(src@, rows as int, k as int, part) {
            Ok(d) => r is Ok && r->Ok_0@ == d,
            Err(e) => r is Err && r->Err_0 == e,
        },
{
    match rows.checked_mul(row_bytes(k)) {
        Some(n) => if src.len() != n {
            return Err(LoadError::WrongShape(part));
        },
        None => {
            let ghost n: usize = src.len();
            return Err(LoadError::WrongShape(part));
        },
    }
    match rows.checked_mul(q4r_row_bytes(k)) {
        Some(_) => Ok(repack_q4r(src, rows, k)),
        None => Err(LoadError::TooLarge),
    }
}

/// The rows of queries, keys and values of layer `l`, before they are laid out. A
/// layer without values of its own uses its keys.
pub open spec fn qkv_rows_of(g: GgufView, plan: Plan, l: nat) -> Result<Seq<u8>, LoadError> {
    let s = plan.layers@[l as int];
    match part_data(g, l, Part::AttnQ) {
        Err(e) => Err(e),
        Ok(q) => match part_data(g, l, Part::AttnK) {
            Err(e) => Err(e),
            Ok(k) => {
                let v = match part_data(g, l, Part::AttnV) {
                    Ok(v) => v,
                    Err(_) => k,
                };
                if q.len() != crate::q4_0::matrix_bytes(s.q_rows as int, HIDDEN as int) {
                    Err(LoadError::WrongShape(Part::AttnQ))
                } else if k.len() != crate::q4_0::matrix_bytes(s.kv_dim as int, HIDDEN as int) {
                    Err(LoadError::WrongShape(Part::AttnK))
                } else {
                    Ok(q + k + v)
                }
            },
        },
    }
}

/// The matrix of queries, keys and values of layer `l`.
pub open spec fn qkv_of(g: GgufView, plan: Plan, l: nat) -> Result<Seq<u8>, LoadError> {
    match qkv_rows_of(g, plan, l) {
        Err(e) => Err(e),
        Ok(src) => laid_out(
            src,
            plan.layers@[l as int].qkv_rows as int,
            HIDDEN as int,
            Part::AttnV,
        ),
    }
}

/// A matrix of layer `l` that is one tensor.
pub open spec fn single_of(g: GgufView, l: nat, part: Part, rows: int, k: int) -> Result<
    Seq<u8>,
    LoadError,
> {
    match part_data(g, l, part) {
        Err(e) => Err(e),
        Ok(src) => laid_out(src, rows, k, part),
    }
}

/// Joined gate and up rows of the shared branch of layer `l`.
pub open spec fn gate_up_of(g: GgufView, plan: Plan, l: nat) -> Result<Seq<u8>, LoadError> {
    match part_data(g, l, Part::FfnGate) {
        Err(e) => Err(e),
        Ok(gate) => match part_data(g, l, Part::FfnUp) {
            Err(e) => Err(e),
            Ok(up) => laid_out(gate + up, 2 * plan.ffn, HIDDEN as int, Part::FfnUp),
        },
    }
}

fn has_size(data: &[u8], rows: usize, k: usize) -> (r: bool)
    requires
        k % 32 == 0,
    ensures
        r <==> data@.len() == crate::q4_0::matrix_bytes(rows as int, k as int),
{
    let n: usize = data.len();
    match rows.checked_mul(row_bytes(k)) {
        Some(want) => n == want,
        None => false,
    }
}

/// The matrix of queries, keys and values of layer `l`.
pub fn qkv_matrix(g: &Gguf, plan: &Plan, l: usize) -> (r: Result<Vec<u8>, LoadError>)
    requires
        plan.wf(),
        l < plan.layers@.len(),
    ensures
        match qkv_of(g@, *plan, l as nat) {
            Ok(d) => r is Ok && r->Ok_0@ == d,
            Err(e) => r is Err && r->Err_0 == e,
        },
{
    let s = plan.layers[l];
    let q = match data_of(g, l, Part::AttnQ) {
        Ok(d) => d,
        Err(e) => {
            return Err(e);
        },
    };
    let k = match data_of(g, l, Part::AttnK) {
        Ok(d) => d,
        Err(e) => {
            return Err(e);
        },
    };
    let v = match data_of(g, l, Part::AttnV) {
        Ok(d) => d,
        Err(_) => k,
    };
    if !has_size(q, s.q_rows, HIDDEN) {
        return Err(LoadError::WrongShape(Part::AttnQ));
    }
    if !has_size(k, s.kv_dim, HIDDEN) {
        return Err(LoadError::WrongShape(Part::AttnK));
    }
    let mut src: Vec<u8> = Vec::new();
    src.extend_from_slice(q);
    src.extend_from_slice(k);
    src.extend_from_slice(v);
    assert(src@ =~= q@ + k@ + v@);
    lay_out(src.as_slice(), s.qkv_rows, HIDDEN, Part::AttnV)
}

/// The output matrix of the attention of layer `l`.
pub fn out_matrix(g: &Gguf, plan: &Plan, l: usize) -> (r: Result<Vec<u8>, LoadError>)
    requires
        plan.wf(),
        l < plan.layers@.len(),
    ensures
        match single_of(
            g@,
            l as nat,
            Part::AttnOutput,
            HIDDEN as int,
            plan.layers@[l as int].q_rows as int,
        ) {
            Ok(d) => r is Ok && r->Ok_0@ == d,
            Err(e) => r is Err && r->Err_0 == e,
        },
{
    match data_of(g, l, Part::AttnOutput) {
        Ok(d) => lay_out(d, HIDDEN, plan.layers[l].q_rows, Part::AttnOutput),
        Err(e) => Err(e),
    }
}

/// Joined gate and up rows of the shared branch of layer `l`.
pub fn gate_up_matrix(g: &Gguf, plan: &Plan, l: usize) -> (r: Result<Vec<u8>, LoadError>)
    requires
        plan.wf(),
    ensures
        match gate_up_of(g@, *plan, l as nat) {
            Ok(d) => r is Ok && r->Ok_0@ == d,
            Err(e) => r is Err && r->Err_0 == e,
        },
{
    let gate = match data_of(g, l, Part::FfnGate) {
        Ok(d) => d,
        Err(e) => {
            return Err(e);
        },
    };
    let up = match data_of(g, l, Part::FfnUp) {
        Ok(d) => d,
        Err(e) => {
            return Err(e);
        },
    };
    let mut src: Vec<u8> = Vec::new();
    src.extend_from_slice(gate);
    src.extend_from_slice(up);
    assert(src@ =~= gate@ + up@);
    lay_out(src.as_slice(), 2 * plan.ffn, HIDDEN, Part::FfnUp)
}

/// The down matrix of the shared branch of layer `l`.
pub fn down_matrix(g: &Gguf, plan: &Plan, l: usize) -> (r: Result<Vec<u8>, LoadError>)
    requires
        plan.wf(),
    ensures
        match single_of(g@, l as nat, Part::FfnDown, HIDDEN as int, plan.ffn as int) {
            Ok(d) => r is Ok && r->Ok_0@ == d,
            Err(e) => r is Err && r->Err_0 == e,
        },
{
    match data_of(g, l, Part::FfnDown) {
        Ok(d) => lay_out(d, HIDDEN, plan.ffn, Part::FfnDown),
        Err(e) => Err(e),
    }
}

/// The elements of a small tensor: bit patterns of single or of half precision, or
/// q4_0 levels with their scales.
pub enum Small {
    Single(Vec<u32>),
    Half(Vec<u16>),
    Q4(crate::q4_0::Levels),
}

/// What a small tensor holds.
pub ghost enum SmallView {
    Single(Seq<u32>),
    Half(Seq<u16>),
    Q4(Seq<u16>, Seq<i32>),
}

impl View for Small {
    type V = SmallView;

    open spec fn view(&self) -> SmallView {
        match self {
            Small::Single(v) => SmallView::Single(v@),
            Small::Half(v) => SmallView::Half(v@),
            Small::Q4(q) => SmallView::Q4(q.scales@, q.levels@),
        }
    }
}

/// Data as numbers of 32 bits. Bytes left over count for nothing.
pub open spec fn words(data: Seq<u8>) -> Seq<u32> {
    Seq::new((data.len() / 4) as nat, |i: int| crate::le_bytes::le_u32(data, 4 * i))
}

/// Data as numbers of 16 bits. A byte left over counts for nothing.
pub open spec fn half_words(data: Seq<u8>) -> Seq<u16> {
    Seq::new((data.len() / 2) as nat, |i: int| crate::le_bytes::le_u16(data, 2 * i))
}

/// The elements in the given data of the given type.
pub open spec fn small_of(ggml_type: u32, data: Seq<u8>) -> Result<SmallView, LoadError> {
    if ggml_type == 0 {
        Ok(SmallView::Single(words(data)))
    } else if ggml_type == 1 {
        Ok(SmallView::Half(half_words(data)))
    } else if ggml_type == 2 {
        let n = (data.len() / 18 * 32) as nat;
        if n > usize::MAX {
            Err(LoadError::TooLarge)
        } else {
            Ok(SmallView::Q4(crate::q4_0::scales_of(data, n), crate::q4_0::levels_of(data, n)))
        }
    } else {
        Err(LoadError::UnsupportedType(ggml_type))
    }
}

/// The elements of a small tensor of layer `l`.
pub open spec fn small_part(g: GgufView, l: nat, part: Part) -> Result<SmallView, LoadError> {
    match part_data(g, l, part) {
        Err(e) => Err(e),
        Ok(data) => small_of(g.tensors[name_of(l, part)].ggml_type, data),
    }
}

/// The elements of a small tensor outside the layers.
pub open spec fn small_global(g: GgufView, name: Seq<char>) -> Result<SmallView, LoadError> {
    match g.data_range(name) {
        Err(e) => Err(LoadError::Global(e)),
        Ok((start, end)) => small_of(g.tensors[name].ggml_type, g.bytes.subrange(start, end)),
    }
}

fn read_words(data: &[u8]) -> (r: Vec<u32>)
    ensures
        r@ == words(data@),
{
    let n: usize = data.len() / 4;
    let mut r: Vec<u32> = Vec::new();
    let mut i: usize = 0;
    while i < n
        invariant
            i <= n == data@.len() / 4,
            data@.len() <= usize::MAX,
            r@ =~= words(data@).take(i as int),
        decreases n - i,
    {
        r.push(get_u32(data, 4 * i));
        i = i + 1;
    }
    r
}

fn read_half_words(data: &[u8]) -> (r: Vec<u16>)
    ensures
        r@ == half_words(data@),
{
    let n: usize = data.len() / 2;
    let mut r: Vec<u16> = Vec::new();
    let mut i: usize = 0;
    while i < n
        invariant
            i <= n == data@.len() / 2,
            data@.len() <= usize::MAX,
            r@ =~= half_words(data@).take(i as int),
        decreases n - i,
    {
        r.push(get_u16(data, 2 * i));
        i = i + 1;
    }
    r
}

/// The elements in the given data of the given type.
fn read_small(ggml_type: u32, data: &[u8]) -> (r: Result<Small, LoadError>)
    ensures
        match small_of(ggml_type, data@) {
            Ok(s) => r is Ok && r->Ok_0@ == s,
            Err(e) => r is Err && r->Err_0 == e,
        },
{
    if ggml_type == 0 {
        Ok(Small::Single(read_words(data)))
    } else if ggml_type == 1 {
        Ok(Small::Half(read_half_words(data)))
    } else if ggml_type == 2 {
        let blocks: usize = data.len() / 18;
        if blocks > usize::MAX / 32 {
            return Err(LoadError::TooLarge);
        }
        let whole = &data[0..18 * blocks];
        let n: usize = 32 * blocks;
        let q = crate::q4_0::dequantize_row(whole, n);
        assert(q.scales@ =~= crate::q4_0::scales_of(data@, n as nat));
        assert forall|j: int| 0 <= j < n implies #[trigger] crate::q4_0::levels_of(
            data@,
            n as nat,
        )[j] == crate::q4_0::levels_of(whole@, n as nat)[j] by {
            assert(crate::q4_0::code_bytes(data@, j / 32) =~= crate::q4_0::code_bytes(
                whole@,
                j / 32,
            ));
        }
        assert(q.levels@ =~= crate::q4_0::levels_of(data@, n as nat));
        Ok(Small::Q4(q))
    } else {
        Err(LoadError::UnsupportedType(ggml_type))
    }
}

/// The elements of a small tensor of layer `l`.
pub fn small_tensor(g: &Gguf, l: usize, part: Part) -> (r: Result<Small, LoadError>)
    ensures
        match small_part(g@, l as nat, part) {
            Ok(s) => r is Ok && r->Ok_0@ == s,
            Err(e) => r is Err && r->Err_0 == e,
        },
{
    let name = tensor_name(l, part);
    let t = match g.tensor(name.as_str()) {
        Ok(t) => t,
        Err(e) => {
            return Err(LoadError::Layer(part, e));
        },
    };
    match data_of(g, l, part) {
        Ok(data) => read_small(t.ggml_type, data),
        Err(e) => Err(e),
    }
}

/// The elements of the weights of the last norm.
pub fn final_norm(g: &Gguf) -> (r: Result<Small, LoadError>)
    ensures
        match small_global(g@, "output_norm.weight"@) {
            Ok(s) => r is Ok && r->Ok_0@ == s,
            Err(e) => r is Err && r->Err_0 == e,
        },
{
    let t = match g.tensor("output_norm.weight") {
        Ok(t) => t,
        Err(e) => {
            return Err(LoadError::Global(e));
        },
    };
    match g.tensor_data("output_norm.weight") {
        Ok(data) => read_small(t.ggml_type, data),
        Err(e) => Err(LoadError::Global(e)),
    }
}

/// The table of the tokens' embeddings, which is in the q6_k format.
pub open spec fn embedding_of(g: GgufView) -> Result<Seq<u8>, LoadError> {
    let name = "token_embd.weight"@;
    if !g.tensors.contains_key(name) {
        Err(LoadError::Global(GgufError::NoSuchTensor))
    } else if g.tensors[name].ggml_type != 14 {
        Err(LoadError::WrongEmbedding)
    } else {
        match g.data_range(name) {
            Err(e) => Err(LoadError::Global(e)),
            Ok((start, end)) => Ok(g.bytes.subrange(start, end)),
        }
    }
}

/// The table of the tokens' embeddings.
pub fn embedding_table<'a>(g: &Gguf<'a>) -> (r: Result<&'a [u8], LoadError>)
    ensures
        match embedding_of(g@) {
            Ok(d) => r is Ok && r->Ok_0@ == d,
            Err(e) => r is Err && r->Err_0 == e,
        },
{
    match g.tensor("token_embd.weight") {
        Ok(t) => if t.ggml_type != 14 {
            return Err(LoadError::WrongEmbedding);
        },
        Err(e) => {
            return Err(LoadError::Global(e));
        },
    }
    match g.tensor_data("token_embd.weight") {
        Ok(d) => Ok(d),
        Err(e) => Err(LoadError::Global(e)),
    }
}

/// How many tokens have an embedding in the table.
pub fn embedding_rows(table: &[u8]) -> (r: usize)
    ensures
        r == table@.len() / 2310,
        forall|token: int|
            0 <= token ==> (token < r <==> #[trigger] ((token + 1) * 2310) <= table@.len()),
{
    table.len() / 2310
}

/// The row of a token in the table of embeddings.
pub open spec fn embedding_row(table: Seq<u8>, token: int) -> Seq<u8> {
    crate::q4_0::row_of(table, HIDDEN as int / 256 * 210, token)
}

/// The embedding of a token, as integers.
pub fn embedding(table: &[u8], token: u32) -> (r: crate::q6k::Levels)
    requires
        (token + 1) * (HIDDEN as int / 256 * 210) <= table@.len(),
    ensures
        r.scales@ == crate::q6k::scales_of(embedding_row(table@, token as int), HIDDEN as nat),
        r.group_scales@ == crate::q6k::group_scales_of(
            embedding_row(table@, token as int),
            HIDDEN as nat,
        ),
        r.levels@ == crate::q6k::levels_of(embedding_row(table@, token as int), HIDDEN as nat),
{
    let ghost n: usize = table.len();
    let row: usize = crate::q6k::row_bytes(HIDDEN);
    assert(row == 2310);
    let start: usize = token as usize * row;
    crate::q6k::dequantize_row(&table[start..start + row], HIDDEN)
}

/// What keeps the experts of layer `l` from being loaded.
pub open spec fn experts_error(g: GgufView, plan: Plan, l: nat) -> Option<LoadError> {
    let s = plan.experts();
    match part_data(g, l, Part::ExpertGateUp) {
        Err(e) => Some(e),
        Ok(gate_up) => match part_data(g, l, Part::ExpertDown) {
            Err(e) => Some(e),
            Ok(down) => if gate_up.len() < plan.n_experts * crate::q4_0::matrix_bytes(
                s.rows_in as int,
                s.k_in as int,
            ) {
                Some(LoadError::WrongShape(Part::ExpertGateUp))
            } else if down.len() < plan.n_experts * crate::q4_0::matrix_bytes(
                s.rows_out as int,
                s.k_out as int,
            ) {
                Some(LoadError::WrongShape(Part::ExpertDown))
            } else {
                None
            },
        },
    }
}

/// There are that many runs of `size` bytes in the data.
fn has_runs(data: &[u8], n: usize, rows: usize, k: usize) -> (r: bool)
    requires
        k % 32 == 0,
        crate::q4_0::matrix_bytes(rows as int, k as int) <= usize::MAX,
    ensures
        r <==> data@.len() >= n * crate::q4_0::matrix_bytes(rows as int, k as int),
{
    let len: usize = data.len();
    proof {
        assert(rows * (k as int / 32 * 18) >= 0) by (nonlinear_arith);
    }
    let size: usize = rows * row_bytes(k);
    match n.checked_mul(size) {
        Some(want) => len >= want,
        None => false,
    }
}

/// Fills the zeroed bank of layer `l` with its experts.
pub fn load_experts(g: &Gguf, plan: &Plan, l: usize, bank: &mut [u8]) -> (r: Result<(), LoadError>)
    requires
        plan.wf(),
        plan.n_experts * plan.expert_bytes <= usize::MAX,
        old(bank)@ == crate::q4_0::zeros(plan.n_experts * plan.expert_bytes),
    ensures
        match experts_error(g@, *plan, l as nat) {
            Some(e) => r == Err::<(), LoadError>(e) && final(bank)@ == old(bank)@,
            None => {
                &&& r == Ok::<(), LoadError>(())
                &&& final(bank)@.len() == old(bank)@.len()
                &&& forall|e: int|
                    0 <= e < plan.n_experts ==> #[trigger] crate::q4_0::row_of(
                        final(bank)@,
                        plan.expert_bytes as int,
                        e,
                    ) == plan.experts().expert(
                        part_data(g@, l as nat, Part::ExpertGateUp)->Ok_0,
                        part_data(g@, l as nat, Part::ExpertDown)->Ok_0,
                        e,
                    )
            },
        },
{
    let shape = ExpertShape {
        rows_in: 2 * plan.moe_inter,
        k_in: HIDDEN,
        rows_out: HIDDEN,
        k_out: plan.moe_inter,
    };
    let gate_up = match data_of(g, l, Part::ExpertGateUp) {
        Ok(d) => d,
        Err(e) => {
            return Err(e);
        },
    };
    let down = match data_of(g, l, Part::ExpertDown) {
        Ok(d) => d,
        Err(e) => {
            return Err(e);
        },
    };
    if !has_runs(gate_up, plan.n_experts, shape.rows_in, shape.k_in) {
        return Err(LoadError::WrongShape(Part::ExpertGateUp));
    }
    if !has_runs(down, plan.n_experts, shape.rows_out, shape.k_out) {
        return Err(LoadError::WrongShape(Part::ExpertDown));
    }
    proof {
        assert(shape.rows_in * crate::q4_0::q4r_bytes(HIDDEN as int) > 0) by (nonlinear_arith)
            requires
                shape.rows_in > 0,
                crate::q4_0::q4r_bytes(HIDDEN as int) > 0,
        ;
        assert(HIDDEN * crate::q4_0::q4r_bytes(shape.k_out as int) >= 0);
    }
    fill_layer(gate_up, down, shape, plan.n_experts, bank);
    Ok(())
}

/// Layer `l` has routed experts. Some models hold their gate and up matrices in one
/// tensor, others in two.
pub open spec fn has_experts(g: GgufView, l: nat) -> bool {
    g.tensors.contains_key(name_of(l, Part::ExpertGate)) || g.tensors.contains_key(
        name_of(l, Part::ExpertGateUp),
    )
}

/// The layers among the first `n` that have routed experts.
pub open spec fn layers_with_experts(g: GgufView, n: nat) -> Seq<usize>
    decreases n,
{
    if n == 0 {
        seq![]
    } else {
        let rest = layers_with_experts(g, (n - 1) as nat);
        if has_experts(g, (n - 1) as nat) {
            rest.push((n - 1) as usize)
        } else {
            rest
        }
    }
}

/// The layers among the first `n` that have routed experts.
pub fn expert_layers(g: &Gguf, n: usize) -> (r: Vec<usize>)
    ensures
        r@ == layers_with_experts(g@, n as nat),
{
    let mut r: Vec<usize> = Vec::new();
    let mut l: usize = 0;
    while l < n
        invariant
            l <= n,
            r@ == layers_with_experts(g@, l as nat),
        decreases n - l,
    {
        let split = tensor_name(l, Part::ExpertGate);
        let fused = tensor_name(l, Part::ExpertGateUp);
        if g.tensor(split.as_str()).is_ok() || g.tensor(fused.as_str()).is_ok() {
            r.push(l);
        }
        l = l + 1;
    }
    r
}

/// The width of the experts of layer `l` and their number of gate rows, by the
/// dimensions of their tensors.
pub open spec fn geometry_of(g: GgufView, l: nat) -> Option<(u64, u64)> {
    let fused = name_of(l, Part::ExpertGateUp);
    let split = name_of(l, Part::ExpertGate);
    if g.tensors.contains_key(fused) {
        let dims = g.tensors[fused].dims;
        if dims.len() >= 2 {
            Some((dims[0], (dims[1] / 2) as u64))
        } else {
            None
        }
    } else if g.tensors.contains_key(split) {
        let dims = g.tensors[split].dims;
        if dims.len() >= 2 {
            Some((dims[0], dims[1]))
        } else {
            None
        }
    } else {
        None
    }
}

/// The width of the experts of layer `l` and their number of gate rows.
pub fn expert_geometry(g: &Gguf, l: usize) -> (r: Option<(u64, u64)>)
    ensures
        r == geometry_of(g@, l as nat),
{
    let fused = tensor_name(l, Part::ExpertGateUp);
    match g.tensor(fused.as_str()) {
        Ok(t) => if t.dims.len() >= 2 {
            return Some((t.dims[0], t.dims[1] / 2));
        } else {
            return None;
        },
        Err(_) => {},
    }
    let split = tensor_name(l, Part::ExpertGate);
    match g.tensor(split.as_str()) {
        Ok(t) => if t.dims.len() >= 2 {
            Some((t.dims[0], t.dims[1]))
        } else {
            None
        },
        Err(_) => None,
    }
}

} // verus!
