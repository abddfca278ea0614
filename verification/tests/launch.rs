use freetoken::launch::{Geometry, Launch, LaunchError};

fn shape(x: u32, y: u32, block: u32, shared: u32) -> Result<Geometry, LaunchError> {
    Ok(Geometry { grid: (x, y, 1), block, shared })
}

#[test]
fn shapes_of_matrix_products() {
    assert_eq!(Launch::GemvQ4 { n_rows: 5, k: 64, w_len: 180 }.geometry(), shape(5, 1, 128, 0));
    let (slots_len, y_len, y_stride) = (3, 30, 10);
    let g = Launch::GemvGrouped { n_rows: 9, k: 64, n_experts: 3, slots_len, y_len, y_stride };
    assert_eq!(g.geometry(), shape(3, 3, 128, 256));
    let g = Launch::GemvGroupedQ8 { n_rows: 9, k: 64, n_experts: 3, slots_len, y_len, y_stride };
    assert_eq!(g.geometry(), shape(3, 3, 128, 80));
    let g = Launch::GemvIndexedQ8 {
        n_rows: 4, k: 32, n_entries: 2, bases_len: 2, index_len: 2, y_len: 8, y_stride: 4,
    };
    assert_eq!(g.geometry(), shape(1, 2, 128, 40));
    assert_eq!(
        Launch::GemvQ4r { n_rows: 2816, k: 2816, n_entries: 4 }.geometry(),
        shape(352, 4, 256, 3520)
    );
    assert_eq!(
        Launch::GemvQ6k { n_rows: 5, k: 256, w_len: 1050 }.geometry(),
        shape(2, 1, 128, 1024)
    );
    assert_eq!(
        Launch::GemvQ6kQ8 { n_rows: 17, k: 256, w_len: 3570, q8_len: 320 }.geometry(),
        shape(2, 1, 128, 320)
    );
    assert_eq!(Launch::GemvRows { n_rows: 128, n_seqs: 2 }.geometry(), shape(128, 2, 128, 512));
}

#[test]
fn shapes_of_other_kernels() {
    assert_eq!(Launch::QuantizeQ8 { k: 96, n: 3, q8_len: 360 }.geometry(), shape(2, 1, 256, 0));
    assert_eq!(
        Launch::AttnDecode { kv_start: 10, kv_end: 110, n_heads: 8 }.geometry(),
        shape(8, 1, 128, 400)
    );
    assert_eq!(
        Launch::AttnBatch { n_heads: 8, n_seqs: 3, max_ctx: 2048 }.geometry(),
        shape(8, 3, 128, 8192)
    );
    assert_eq!(Launch::Rows { n: 4 }.geometry(), shape(4, 1, 128, 512));
    assert_eq!(Launch::NormHeads { n_seqs: 2, heads: 8 }.geometry(), shape(16, 1, 128, 512));
    assert_eq!(Launch::RopeHeads { n_seqs: 2, heads: 8 }.geometry(), shape(16, 1, 64, 0));
    assert_eq!(Launch::Strips { dim: 257, n: 3 }.geometry(), shape(2, 3, 256, 0));
    assert_eq!(Launch::Flat { total: 256 }.geometry(), shape(1, 1, 256, 0));
    assert_eq!(Launch::FlatRows { inter: 100, n: 3 }.geometry(), shape(2, 1, 256, 0));
    assert_eq!(
        Launch::Router { n_experts: 128, topk: 8, n_seqs: 2 }.geometry(),
        shape(2, 1, 128, 0)
    );
    assert_eq!(Launch::Admit { n_entries: 16 }.geometry(), shape(1, 1, 128, 0));
    assert_eq!(Launch::Promote { n_entries: 16 }.geometry(), shape(96, 16, 256, 0));
    assert_eq!(Launch::Combine { dim: 2816, n: 2 }.geometry(), shape(2, 1, 128, 11776));
    assert_eq!(Launch::Sample { n_seqs: 2 }.geometry(), shape(2, 1, 256, 0));
}

#[test]
fn refused_launches() {
    let refused = |l: Launch, e: LaunchError| assert_eq!(l.geometry(), Err(e));
    refused(Launch::GemvQ4 { n_rows: 1, k: 33, w_len: 18 }, LaunchError::RaggedRow);
    refused(Launch::GemvQ4 { n_rows: 2, k: 32, w_len: 18 }, LaunchError::WrongMatrix);
    refused(Launch::QuantizeQ8 { k: 32, n: 2, q8_len: 79 }, LaunchError::ShortBuffer);
    refused(
        Launch::GemvGrouped {
            n_rows: 1, k: 32, n_experts: 2, slots_len: 1, y_len: 9, y_stride: 1,
        },
        LaunchError::ShortBuffer,
    );
    refused(
        Launch::GemvIndexedQ8 {
            n_rows: 1, k: 32, n_entries: 2, bases_len: 2, index_len: 2, y_len: 3, y_stride: 2,
        },
        LaunchError::ShortBuffer,
    );
    refused(Launch::AttnDecode { kv_start: 5, kv_end: 5, n_heads: 1 }, LaunchError::EmptyContext);
    refused(
        Launch::AttnDecode { kv_start: 0, kv_end: 12289, n_heads: 1 },
        LaunchError::ContextTooLong,
    );
    refused(
        Launch::AttnBatch { n_heads: 1, n_seqs: 1, max_ctx: 12289 },
        LaunchError::ContextTooLong,
    );
    refused(
        Launch::Router { n_experts: 1025, topk: 8, n_seqs: 1 },
        LaunchError::TooManyExperts,
    );
    refused(Launch::Router { n_experts: 8, topk: 33, n_seqs: 1 }, LaunchError::TooManyExperts);
    refused(Launch::Rows { n: 1 << 33 }, LaunchError::TooLarge);
    refused(Launch::NormHeads { n_seqs: 1 << 40, heads: 1 << 40 }, LaunchError::TooLarge);
}
