//! What holds of every tokenizer: texts come back from their tokens, no merge is
//! left undone, and which merge is made next is never in doubt.

use crate::tokenizer::{
    bpe, byte_ids, byte_name, byte_value, first_special, hex_digit, is_best, is_first_special,
    is_split, joined, merge_at, merge_ranks, mergeable, no_space, normalized, number, piece_bytes,
    piece_ids, pieces_ids, singles, spaced, specials, stands_at, vocab_ids, Vocabulary,
};
use vstd::prelude::*;
use vstd::utf8::{decode_utf8, encode_utf8, valid_utf8};

verus! {

impl Vocabulary {
    /// The token of a text is a token for that text.
    pub open spec fn consistent(self) -> bool {
        forall|s: Seq<char>| #[trigger]
            self.ids.contains_key(s) ==> self.ids[s] < self.vocab.len() && self.vocab[self.ids[s] as int]
                == s
    }

    /// There are tokens for every byte, for the lower one eighth block and for
    /// the outcome of every merge.
    pub open spec fn covering(self) -> bool {
        &&& forall|b: u8| self.ids.contains_key(#[trigger] byte_name(b))
        &&& self.ids.contains_key(seq!['\u{2581}'])
        &&& forall|p: (Seq<char>, Seq<char>)| #[trigger]
            self.ranks.contains_key(p) ==> self.ids.contains_key(p.0 + p.1)
    }

    /// No piece that the text is split into reads like the token of a byte.
    pub open spec fn spells_no_byte(self, text: Seq<char>) -> bool {
        no_byte_names(bpe(self.ranks, singles(normalized(text))))
    }

    /// The same of a text in which special tokens may stand: of what is between them,
    /// and of those without a token of their own.
    pub open spec fn spells_no_byte_between(self, text: Seq<char>) -> bool
        decreases text.len(),
        via Self::between_shrinks
    {
        match first_special(text) {
            Some((i, k)) => {
                &&& self.spells_no_byte(text.take(i))
                &&& self.ids.contains_key(specials()[k]) || self.spells_no_byte(specials()[k])
                &&& self.spells_no_byte_between(text.skip(i + specials()[k].len()))
            },
            None => self.spells_no_byte(text),
        }
    }

    #[via_fn]
    proof fn between_shrinks(self, text: Seq<char>) {
        crate::tokenizer::first_special_is_first(text);
        lemma_specials();
    }

    /// No merge makes a piece that reads like the token of a byte.
    pub open spec fn merges_spell_no_byte(self) -> bool {
        forall|p: (Seq<char>, Seq<char>)| #[trigger]
            self.ranks.contains_key(p) ==> byte_value(p.0 + p.1) is None
    }
}

/// No piece reads like the token of a byte.
pub open spec fn no_byte_names(pieces: Seq<Seq<char>>) -> bool {
    forall|i: int| 0 <= i < pieces.len() ==> byte_value(#[trigger] pieces[i]) is None
}

/// Nothing in the text reads like the token of a byte.
pub open spec fn plain(text: Seq<char>) -> bool {
    forall|i: int|
        0 <= i <= text.len() - 6 ==> byte_value(#[trigger] text.subrange(i, i + 6)) is None
}

/// The pieces one after the other.
pub open spec fn concatenation(pieces: Seq<Seq<char>>) -> Seq<char>
    decreases pieces.len(),
{
    if pieces.len() == 0 {
        seq![]
    } else {
        concatenation(pieces.drop_last()) + pieces.last()
    }
}

proof fn lemma_concatenation_append(a: Seq<Seq<char>>, b: Seq<Seq<char>>)
    ensures
        concatenation(a + b) == concatenation(a) + concatenation(b),
    decreases b.len(),
{
    if b.len() == 0 {
        assert(a + b =~= a);
        assert(concatenation(a) + concatenation(b) =~= concatenation(a));
    } else {
        assert((a + b).drop_last() =~= a + b.drop_last());
        lemma_concatenation_append(a, b.drop_last());
        assert(concatenation(a + b) =~= concatenation(a) + concatenation(b));
    }
}

proof fn lemma_concatenation_pair(a: Seq<char>, b: Seq<char>)
    ensures
        concatenation(seq![a, b]) == a + b,
        concatenation(seq![a]) == a,
{
    reveal_with_fuel(concatenation, 3);
    assert(seq![a, b].drop_last() =~= seq![a]);
    assert(seq![a].drop_last() =~= seq![]);
    assert(concatenation(seq![]) + a =~= a);
    assert(concatenation(seq![a, b]) =~= a + b);
}

proof fn lemma_merge_keeps_text(pieces: Seq<Seq<char>>, i: int)
    requires
        0 <= i < pieces.len() - 1,
    ensures
        concatenation(merge_at(pieces, i)) == concatenation(pieces),
{
    let a = pieces.take(i);
    let b = seq![pieces[i], pieces[i + 1]];
    let m = seq![pieces[i] + pieces[i + 1]];
    let c = pieces.skip(i + 2);
    assert(pieces =~= a + b + c);
    assert(merge_at(pieces, i) =~= a + m + c);
    lemma_concatenation_append(a + b, c);
    lemma_concatenation_append(a, b);
    lemma_concatenation_append(a + m, c);
    lemma_concatenation_append(a, m);
    lemma_concatenation_pair(pieces[i], pieces[i + 1]);
    lemma_concatenation_pair(pieces[i] + pieces[i + 1], pieces[i]);
}

proof fn lemma_singles_concatenate(text: Seq<char>)
    ensures
        concatenation(singles(text)) == text,
    decreases text.len(),
{
    if text.len() > 0 {
        assert(singles(text).drop_last() =~= singles(text.drop_last()));
        lemma_singles_concatenate(text.drop_last());
        assert(concatenation(singles(text)) =~= text);
    } else {
        assert(singles(text) =~= seq![]);
        assert(text =~= seq![]);
    }
}

/// Merging keeps the text: the pieces that are left, one after the other, are
/// the pieces that there were, one after the other.
pub proof fn merging_keeps_text(
    ranks: Map<(Seq<char>, Seq<char>), u32>,
    pieces: Seq<Seq<char>>,
)
    ensures
        concatenation(bpe(ranks, pieces)) == concatenation(pieces),
    decreases pieces.len(),
{
    if exists|i: int| is_best(ranks, pieces, i) {
        let i = choose|i: int| is_best(ranks, pieces, i);
        lemma_merge_keeps_text(pieces, i);
        merging_keeps_text(ranks, merge_at(pieces, i));
    }
}

spec fn best_below(
    ranks: Map<(Seq<char>, Seq<char>), u32>,
    pieces: Seq<Seq<char>>,
    n: int,
    i: int,
) -> bool {
    &&& i < n
    &&& mergeable(ranks, pieces, i)
    &&& forall|j: int|
        j < n && #[trigger] mergeable(ranks, pieces, j) ==> {
            let a = ranks[(pieces[i], pieces[i + 1])];
            let b = ranks[(pieces[j], pieces[j + 1])];
            a < b || (a == b && i <= j)
        }
}

proof fn lemma_best_exists(
    ranks: Map<(Seq<char>, Seq<char>), u32>,
    pieces: Seq<Seq<char>>,
    n: int,
    w: int,
) -> (best: int)
    requires
        w < n,
        mergeable(ranks, pieces, w),
    ensures
        best_below(ranks, pieces, n, best),
    decreases n,
{
    let l = n - 1;
    if exists|i: int| i < l && mergeable(ranks, pieces, i) {
        let i = choose|i: int| i < l && mergeable(ranks, pieces, i);
        let best = lemma_best_exists(ranks, pieces, l, i);
        if mergeable(ranks, pieces, l) && ranks[(pieces[l], pieces[l + 1])] < ranks[(
            pieces[best],
            pieces[best + 1],
        )] {
            l
        } else {
            best
        }
    } else {
        w
    }
}

/// No merge is left: of the pieces that a text ends up in, no two that stand
/// side by side may be merged.
pub proof fn no_merge_is_left(
    ranks: Map<(Seq<char>, Seq<char>), u32>,
    pieces: Seq<Seq<char>>,
    i: int,
)
    ensures
        !mergeable(ranks, bpe(ranks, pieces), i),
    decreases pieces.len(),
{
    if exists|i: int| is_best(ranks, pieces, i) {
        let k = choose|i: int| is_best(ranks, pieces, i);
        no_merge_is_left(ranks, merge_at(pieces, k), i);
    } else if mergeable(ranks, pieces, i) {
        let k = lemma_best_exists(ranks, pieces, pieces.len() as int, i);
        assert(is_best(ranks, pieces, k));
    }
}

/// The tokens of a vocabulary are consistent: each text of it has a token, and
/// the token of a text is one at which that text stands.
pub proof fn tokens_name_their_texts(vocab: Seq<Seq<char>>, s: Seq<char>)
    requires
        vocab.len() <= 0x1_0000_0000,
    ensures
        vocab_ids(vocab).contains_key(s) <==> vocab.contains(s),
        vocab_ids(vocab).contains_key(s) ==> vocab_ids(vocab)[s] < vocab.len()
            && vocab[vocab_ids(vocab)[s] as int] == s,
    decreases vocab.len(),
{
    if vocab.len() > 0 {
        tokens_name_their_texts(vocab.drop_last(), s);
        if vocab.contains(s) && s != vocab.last() {
            let i = choose|i: int| 0 <= i < vocab.len() && vocab[i] == s;
            assert(vocab.drop_last()[i] == s);
        }
        if vocab.drop_last().contains(s) {
            let i = choose|i: int| 0 <= i < vocab.len() - 1 && vocab.drop_last()[i] == s;
            assert(vocab[i] == s);
        }
        if s == vocab.last() {
            assert(vocab[vocab.len() - 1] == s);
        }
    }
}

/// A tokenizer out of a file's metadata is consistent, if it has no more tokens than
/// there are numbers for them.
pub proof fn read_tokenizer_is_consistent(meta: Map<Seq<char>, crate::gguf::Meta>)
    requires
        crate::tokenizer::vocabulary_of(meta) is Ok,
        crate::tokenizer::vocabulary_of(meta)->Ok_0.vocab.len() <= 0x1_0000_0000,
    ensures
        crate::tokenizer::vocabulary_of(meta)->Ok_0.consistent(),
{
    let v = crate::tokenizer::vocabulary_of(meta)->Ok_0;
    assert forall|s: Seq<char>| #[trigger] v.ids.contains_key(s) implies v.ids[s] < v.vocab.len()
        && v.vocab[v.ids[s] as int] == s by {
        tokens_name_their_texts(v.vocab, s);
    }
}

proof fn lemma_utf8_append(a: Seq<char>, b: Seq<char>)
    ensures
        encode_utf8(a + b) == encode_utf8(a) + encode_utf8(b),
    decreases a.len(),
{
    if a.len() == 0 {
        assert(a + b =~= b);
        assert(encode_utf8(a) + encode_utf8(b) =~= encode_utf8(b));
    } else {
        assert((a + b).drop_first() =~= a.drop_first() + b);
        lemma_utf8_append(a.drop_first(), b);
        assert(encode_utf8(a + b) =~= encode_utf8(a) + encode_utf8(b));
    }
}

proof fn lemma_decoding_append(v: Vocabulary, a: Seq<u32>, b: Seq<u32>)
    ensures
        v.decoding(a + b) == v.decoding(a) + v.decoding(b),
    decreases b.len(),
{
    if b.len() == 0 {
        assert(a + b =~= a);
        assert(v.decoding(a) + v.decoding(b) =~= v.decoding(a));
    } else {
        assert((a + b).drop_last() =~= a + b.drop_last());
        lemma_decoding_append(v, a, b.drop_last());
        assert(v.decoding(a + b) =~= v.decoding(a) + v.decoding(b));
    }
}

proof fn lemma_decoding_one(v: Vocabulary, id: u32)
    ensures
        v.decoding(seq![id]) == piece_bytes(v.vocab[id as int]),
{
    reveal_with_fuel(Vocabulary::decoding, 2);
    assert(seq![id].drop_last() =~= seq![]);
    assert(v.decoding(seq![id]) =~= piece_bytes(v.vocab[id as int]));
}

/// The token text of a byte reads as that byte.
pub proof fn byte_name_reads_as_byte(b: u8)
    ensures
        byte_value(byte_name(b)) == Some(b),
{
    let high = b as int / 16;
    let low = b as int % 16;
    assert(0 <= high < 16 && 0 <= low < 16);
    assert(crate::tokenizer::digit_value(hex_digit(high)) == Some(high));
    assert(crate::tokenizer::digit_value(hex_digit(low)) == Some(low));
    assert(hex_digit(high) != '+');
}

proof fn lemma_byte_ids(v: Vocabulary, bytes: Seq<u8>)
    requires
        v.consistent(),
        v.covering(),
    ensures
        v.knows(byte_ids(v.ids, bytes)),
        v.decoding(byte_ids(v.ids, bytes)) == bytes,
    decreases bytes.len(),
{
    if bytes.len() > 0 {
        let b = bytes.last();
        let done = byte_ids(v.ids, bytes.drop_last());
        lemma_byte_ids(v, bytes.drop_last());
        byte_name_reads_as_byte(b);
        assert(v.ids.contains_key(byte_name(b)));
        assert(done.push(v.ids[byte_name(b)]).drop_last() =~= done);
        assert(v.decoding(byte_ids(v.ids, bytes)) =~= bytes);
    } else {
        assert(bytes =~= seq![]);
    }
}

proof fn lemma_piece_ids(v: Vocabulary, piece: Seq<char>)
    requires
        v.consistent(),
        v.covering(),
        piece.len() == 1 || v.ids.contains_key(piece),
        byte_value(piece) is None,
    ensures
        v.knows(piece_ids(v.ids, piece)),
        v.decoding(piece_ids(v.ids, piece)) == encode_utf8(spaced(piece)),
{
    if v.ids.contains_key(piece) {
        lemma_decoding_one(v, v.ids[piece]);
    } else {
        if piece[0] == '\u{2581}' {
            assert(piece =~= seq!['\u{2581}']);
        }
        assert(spaced(piece) =~= piece);
        lemma_byte_ids(v, encode_utf8(piece));
    }
}

/// Each piece is a single character or has a token.
spec fn known_pieces(v: Vocabulary, pieces: Seq<Seq<char>>) -> bool {
    forall|i: int|
        0 <= i < pieces.len() ==> (#[trigger] pieces[i]).len() == 1 || v.ids.contains_key(pieces[i])
}

proof fn lemma_bpe_pieces_known(v: Vocabulary, pieces: Seq<Seq<char>>)
    requires
        v.covering(),
        known_pieces(v, pieces),
    ensures
        known_pieces(v, bpe(v.ranks, pieces)),
    decreases pieces.len(),
{
    if exists|i: int| is_best(v.ranks, pieces, i) {
        let k = choose|i: int| is_best(v.ranks, pieces, i);
        let next = merge_at(pieces, k);
        assert forall|i: int| 0 <= i < next.len() implies (#[trigger] next[i]).len() == 1
            || v.ids.contains_key(next[i]) by {
            if i < k {
                assert(next[i] == pieces[i]);
            } else if i == k {
                let p = (pieces[k], pieces[k + 1]);
                assert(v.ranks.contains_key(p));
                assert(next[i] == p.0 + p.1);
            } else {
                assert(next[i] == pieces[i + 1]);
            }
        }
        lemma_bpe_pieces_known(v, next);
    }
}

proof fn lemma_pieces_ids(v: Vocabulary, pieces: Seq<Seq<char>>)
    requires
        v.consistent(),
        v.covering(),
        known_pieces(v, pieces),
        no_byte_names(pieces),
    ensures
        v.knows(pieces_ids(v.ids, pieces)),
        v.decoding(pieces_ids(v.ids, pieces)) == encode_utf8(spaced(concatenation(pieces))),
    decreases pieces.len(),
{
    let all = concatenation(pieces);
    if pieces.len() > 0 {
        let front = pieces.drop_last();
        let last = pieces.last();
        let head = concatenation(front);
        assert forall|i: int| 0 <= i < front.len() implies byte_value(#[trigger] front[i]) is None by {
            assert(front[i] == pieces[i]);
        }
        lemma_pieces_ids(v, front);
        assert(pieces[pieces.len() - 1] == last);
        lemma_piece_ids(v, last);
        lemma_decoding_append(v, pieces_ids(v.ids, front), piece_ids(v.ids, last));
        assert(spaced(all) =~= spaced(head) + spaced(last));
        lemma_utf8_append(spaced(head), spaced(last));
    } else {
        assert(spaced(all) =~= seq![]);
    }
}

proof fn lemma_plain_part(text: Seq<char>, a: int, b: int)
    requires
        plain(text),
        0 <= a <= b <= text.len(),
    ensures
        plain(text.subrange(a, b)),
{
    let part = text.subrange(a, b);
    assert forall|i: int| 0 <= i <= part.len() - 6 implies byte_value(
        #[trigger] part.subrange(i, i + 6),
    ) is None by {
        assert(part.subrange(i, i + 6) =~= text.subrange(a + i, a + i + 6));
    }
}

proof fn lemma_normalized_plain(text: Seq<char>)
    requires
        plain(text),
    ensures
        plain(normalized(text)),
{
    let norm = normalized(text);
    assert forall|i: int| 0 <= i <= norm.len() - 6 implies byte_value(
        #[trigger] norm.subrange(i, i + 6),
    ) is None by {
        let a = norm.subrange(i, i + 6);
        let b = text.subrange(i, i + 6);
        if byte_value(a) is Some {
            assert forall|k: int| 0 <= k < 6 implies a[k] == b[k] by {
                assert(a[k] != '\u{2581}');
            }
            assert(a =~= b);
        }
    }
}

/// Decoding undoes encoding: where the tokenizer covers every text and no piece of
/// the text reads like the token of a byte, the tokens of a text stand for the text
/// itself, with a space for every lower one eighth block.
pub proof fn decode_undoes_encode(v: Vocabulary, text: Seq<char>)
    requires
        v.consistent(),
        v.covering(),
        v.spells_no_byte(text),
    ensures
        v.knows(v.encoding(text)),
        valid_utf8(v.decoding(v.encoding(text))),
        decode_utf8(v.decoding(v.encoding(text))) == spaced(text),
{
    lemma_encoding_bytes(v, text);
    vstd::utf8::encode_utf8_valid_utf8(spaced(text));
    vstd::utf8::encode_utf8_decode_utf8(spaced(text));
}

proof fn lemma_encoding_bytes(v: Vocabulary, text: Seq<char>)
    requires
        v.consistent(),
        v.covering(),
        v.spells_no_byte(text),
    ensures
        v.knows(v.encoding(text)),
        v.decoding(v.encoding(text)) == encode_utf8(spaced(text)),
{
    let norm = normalized(text);
    lemma_singles_concatenate(norm);
    merging_keeps_text(v.ranks, singles(norm));
    lemma_bpe_pieces_known(v, singles(norm));
    lemma_pieces_ids(v, bpe(v.ranks, singles(norm)));
    assert(spaced(norm) =~= spaced(text));
}

proof fn lemma_specials()
    ensures
        specials().len() == 9,
        forall|k: int| 0 <= k < 9 ==> #[trigger] specials()[k].len() > 0,
        forall|k: int| 0 <= k < 9 ==> #[trigger] specials()[k].len() != 6,
{
    reveal_strlit("<|turn>");
    reveal_strlit("<turn|>");
    reveal_strlit("<|channel>");
    reveal_strlit("<channel|>");
    reveal_strlit("<|think|>");
    reveal_strlit("<bos>");
    reveal_strlit("<eos>");
    reveal_strlit("<start_of_turn>");
    reveal_strlit("<end_of_turn>");
}

proof fn lemma_special_encoding_bytes(v: Vocabulary, text: Seq<char>)
    requires
        v.consistent(),
        v.covering(),
        v.spells_no_byte_between(text),
    ensures
        v.knows(v.special_encoding(text)),
        v.decoding(v.special_encoding(text)) == encode_utf8(spaced(text)),
    decreases text.len(),
{
    lemma_specials();
    crate::tokenizer::first_special_is_first(text);
    match first_special(text) {
        Some((i, k)) => {
            assert(stands_at(text, i, k));
            let sp = specials()[k];
            let n = sp.len() as int;
            assert(sp.len() > 0 && sp.len() != 6);
            let a = text.take(i);
            let c = text.skip(i + n);
            lemma_encoding_bytes(v, a);
            if v.ids.contains_key(sp) {
                lemma_decoding_one(v, v.ids[sp]);
            } else {
                lemma_encoding_bytes(v, sp);
            }
            lemma_special_encoding_bytes(v, c);
            lemma_decoding_append(v, v.encoding(a) + v.special_ids(k), v.special_encoding(c));
            lemma_decoding_append(v, v.encoding(a), v.special_ids(k));
            assert(spaced(text) =~= spaced(a) + spaced(sp) + spaced(c)) by {
                assert(text =~= a + sp + c);
            }
            lemma_utf8_append(spaced(a) + spaced(sp), spaced(c));
            lemma_utf8_append(spaced(a), spaced(sp));
        },
        None => {
            lemma_encoding_bytes(v, text);
        },
    }
}

/// Decoding undoes encoding also where special tokens stand in the text: these
/// come back as they were written.
pub proof fn decode_undoes_encode_with_specials(v: Vocabulary, text: Seq<char>)
    requires
        v.consistent(),
        v.covering(),
        v.spells_no_byte_between(text),
    ensures
        v.knows(v.special_encoding(text)),
        valid_utf8(v.decoding(v.special_encoding(text))),
        decode_utf8(v.decoding(v.special_encoding(text))) == spaced(text),
{
    lemma_special_encoding_bytes(v, text);
    vstd::utf8::encode_utf8_valid_utf8(spaced(text));
    vstd::utf8::encode_utf8_decode_utf8(spaced(text));
}

proof fn lemma_bpe_spells_no_byte(v: Vocabulary, pieces: Seq<Seq<char>>)
    requires
        v.merges_spell_no_byte(),
        no_byte_names(pieces),
    ensures
        no_byte_names(bpe(v.ranks, pieces)),
    decreases pieces.len(),
{
    if exists|i: int| is_best(v.ranks, pieces, i) {
        let k = choose|i: int| is_best(v.ranks, pieces, i);
        let next = merge_at(pieces, k);
        assert forall|i: int| 0 <= i < next.len() implies byte_value(#[trigger] next[i]) is None by {
            if i < k {
                assert(next[i] == pieces[i]);
            } else if i == k {
                let p = (pieces[k], pieces[k + 1]);
                assert(v.ranks.contains_key(p));
                assert(next[i] == p.0 + p.1);
            } else {
                assert(next[i] == pieces[i + 1]);
            }
        }
        lemma_bpe_spells_no_byte(v, next);
    }
}

/// Where no merge makes a piece that reads like the token of a byte, no text is split
/// into one: every text comes back from its tokens.
pub proof fn safe_merges_spell_no_byte(v: Vocabulary, text: Seq<char>)
    requires
        v.merges_spell_no_byte(),
    ensures
        v.spells_no_byte(text),
        v.spells_no_byte_between(text),
    decreases text.len(),
{
    lemma_bpe_spells_no_byte(v, singles(normalized(text)));
    lemma_specials();
    crate::tokenizer::first_special_is_first(text);
    if let Some((i, k)) = first_special(text) {
        assert(stands_at(text, i, k));
        assert(specials()[k].len() > 0);
        lemma_bpe_spells_no_byte(v, singles(normalized(text.take(i))));
        lemma_bpe_spells_no_byte(v, singles(normalized(specials()[k])));
        safe_merges_spell_no_byte(v, text.skip(i + specials()[k].len()));
    }
}

proof fn lemma_pieces_of_plain(pieces: Seq<Seq<char>>)
    requires
        plain(concatenation(pieces)),
    ensures
        no_byte_names(pieces),
    decreases pieces.len(),
{
    let all = concatenation(pieces);
    if pieces.len() > 0 {
        let front = pieces.drop_last();
        let last = pieces.last();
        let head = concatenation(front);
        lemma_plain_part(all, 0, head.len() as int);
        assert(all.subrange(0, head.len() as int) =~= head);
        lemma_pieces_of_plain(front);
        if last.len() == 6 {
            assert(all.subrange(all.len() - 6, all.len() - 6 + 6) =~= last);
        }
        assert forall|i: int| 0 <= i < pieces.len() implies byte_value(#[trigger] pieces[i]) is None by {
            if i < front.len() {
                assert(front[i] == pieces[i]);
            }
        }
    }
}

proof fn lemma_plain_spells_no_byte(v: Vocabulary, text: Seq<char>)
    requires
        plain(text),
    ensures
        v.spells_no_byte(text),
{
    let norm = normalized(text);
    lemma_normalized_plain(text);
    lemma_singles_concatenate(norm);
    merging_keeps_text(v.ranks, singles(norm));
    lemma_pieces_of_plain(bpe(v.ranks, singles(norm)));
}

/// A text in which nothing reads like the token of a byte is not split into a piece
/// that does: it comes back from its tokens, whatever the merges.
pub proof fn plain_texts_spell_no_byte(v: Vocabulary, text: Seq<char>)
    requires
        plain(text),
    ensures
        v.spells_no_byte(text),
        v.spells_no_byte_between(text),
    decreases text.len(),
{
    lemma_plain_spells_no_byte(v, text);
    lemma_specials();
    crate::tokenizer::first_special_is_first(text);
    if let Some((i, k)) = first_special(text) {
        assert(stands_at(text, i, k));
        let n = specials()[k].len() as int;
        assert(n > 0);
        lemma_plain_part(text, 0, i);
        lemma_plain_part(text, i, i + n);
        lemma_plain_part(text, i + n, text.len() as int);
        assert(text.take(i) =~= text.subrange(0, i));
        assert(text.skip(i + n) =~= text.subrange(i + n, text.len() as int));
        lemma_plain_spells_no_byte(v, text.take(i));
        lemma_plain_spells_no_byte(v, specials()[k]);
        plain_texts_spell_no_byte(v, text.skip(i + n));
    }
}

/// A special token at the start of a text is one token, and the rest of the
/// text is encoded as if it stood alone.
pub proof fn special_token_is_one_token(v: Vocabulary, k: int, rest: Seq<char>)
    requires
        0 <= k < specials().len(),
        v.ids.contains_key(specials()[k]),
    ensures
        v.special_encoding(specials()[k] + rest) == seq![v.ids[specials()[k]]]
            + v.special_encoding(rest),
{
    reveal_strlit("<|turn>");
    reveal_strlit("<turn|>");
    reveal_strlit("<|channel>");
    reveal_strlit("<channel|>");
    reveal_strlit("<|think|>");
    reveal_strlit("<bos>");
    reveal_strlit("<eos>");
    reveal_strlit("<start_of_turn>");
    reveal_strlit("<end_of_turn>");
    let sp = specials()[k];
    let text = sp + rest;
    assert(text.subrange(0, sp.len() as int) =~= sp);
    assert(stands_at(text, 0, k));
    assert forall|j: int, m: int| #[trigger] stands_at(text, j, m) implies 0 < j || (0 == j && k
        <= m) by {
        if j == 0 && m < k {
            let other = specials()[m];
            assert(text.subrange(0, other.len() as int) == other);
            assert forall|i: int| 0 <= i < other.len() implies other[i] == text[i] by {
                assert(text.subrange(0, other.len() as int)[i] == text[i]);
            }
            assert(other[1] == text[1]);
            assert(other[2] == text[2]);
            assert(other[3] == text[3]);
            assert(text[1] == sp[1]);
            assert(text[2] == sp[2]);
            assert(text[3] == sp[3]);
        }
    }
    assert(is_first_special(text, 0, k));
    crate::tokenizer::first_special_is_first(text);
    assert(text.take(0) =~= seq![]);
    assert(singles(normalized(text.take(0))) =~= seq![]);
    assert(bpe(v.ranks, seq![]) == Seq::<Seq<char>>::empty());
    assert(text.skip(sp.len() as int) =~= rest);
    assert(v.special_encoding(text) =~= seq![v.ids[sp]] + v.special_encoding(rest));
}

/// There is one best merge at most, and encoding goes on with it.
pub proof fn best_merge_is_unique(
    ranks: Map<(Seq<char>, Seq<char>), u32>,
    pieces: Seq<Seq<char>>,
    i: int,
)
    requires
        is_best(ranks, pieces, i),
    ensures
        forall|j: int| #[trigger] is_best(ranks, pieces, j) ==> j == i,
        bpe(ranks, pieces) == bpe(ranks, merge_at(pieces, i)),
{
    assert forall|j: int| #[trigger] is_best(ranks, pieces, j) implies j == i by {
        assert(mergeable(ranks, pieces, i) && mergeable(ranks, pieces, j));
    }
}

/// A merge is written as two pieces in one way at most.
pub proof fn split_is_unique(
    merge: Seq<char>,
    p: (Seq<char>, Seq<char>),
    q: (Seq<char>, Seq<char>),
)
    requires
        is_split(merge, p),
        is_split(merge, q),
    ensures
        p == q,
{
    assert(merge.len() == p.0.len() + 1 + p.1.len());
    assert(merge.len() == q.0.len() + 1 + q.1.len());
    assert(merge[p.0.len() as int] == ' ');
    assert(merge[q.0.len() as int] == ' ');
    if p.0.len() < q.0.len() {
        assert(p.1[q.0.len() - p.0.len() - 1] == merge[q.0.len() as int]);
    }
    if q.0.len() < p.0.len() {
        assert(q.1[p.0.len() - q.0.len() - 1] == merge[p.0.len() as int]);
    }
    assert(p.0 =~= merge.take(p.0.len() as int));
    assert(q.0 =~= merge.take(q.0.len() as int));
    assert(p.1 =~= merge.skip(p.0.len() as int + 1));
    assert(q.1 =~= merge.skip(q.0.len() as int + 1));
}

/// A merge is written as two pieces where there is a space in it, and only there.
pub proof fn split_exists(merge: Seq<char>)
    ensures
        !no_space(merge) <==> exists|p: (Seq<char>, Seq<char>)| is_split(merge, p),
    decreases merge.len(),
{
    if exists|p: (Seq<char>, Seq<char>)| is_split(merge, p) {
        let p = choose|p: (Seq<char>, Seq<char>)| is_split(merge, p);
        assert(merge[p.0.len() as int] == ' ');
    }
    if !no_space(merge) {
        if merge.last() == ' ' {
            let p = (merge.drop_last(), Seq::<char>::empty());
            assert(joined(p.0, p.1) =~= merge);
            assert(is_split(merge, p));
        } else {
            let rest = merge.drop_last();
            let i = choose|i: int| 0 <= i < merge.len() && merge[i] == ' ';
            assert(rest[i] == ' ');
            split_exists(rest);
            let q = choose|q: (Seq<char>, Seq<char>)| is_split(rest, q);
            let p = (q.0, q.1.push(merge.last()));
            assert(joined(p.0, p.1) =~= rest.push(merge.last()));
            assert(rest.push(merge.last()) =~= merge);
            assert(is_split(merge, p));
        }
    }
}

/// What one more merge does to the ranks: the pair that it is written as has its
/// position for a rank. One without a space does nothing.
pub proof fn merge_ranks_its_pair(merges: Seq<Seq<char>>, merge: Seq<char>)
    ensures
        forall|p: (Seq<char>, Seq<char>)| #[trigger]
            is_split(merge, p) ==> merge_ranks(merges.push(merge)) == merge_ranks(merges).insert(
                p,
                number(merges.len() as int),
            ),
        no_space(merge) ==> merge_ranks(merges.push(merge)) == merge_ranks(merges),
{
    let all = merges.push(merge);
    assert(all.drop_last() =~= merges);
    assert(all.last() == merge);
    split_exists(merge);
    assert forall|p: (Seq<char>, Seq<char>)| #[trigger] is_split(merge, p) implies merge_ranks(all)
        == merge_ranks(merges).insert(p, number(merges.len() as int)) by {
        split_is_unique(
            merge,
            p,
            choose|q: (Seq<char>, Seq<char>)| is_split(merge, q),
        );
    }
}

/// The merge of the lowest rank goes first, and of several of that rank the leftmost:
/// the text ends up in the same pieces as if that merge had been made before.
pub proof fn lowest_rank_goes_first(
    ranks: Map<(Seq<char>, Seq<char>), u32>,
    pieces: Seq<Seq<char>>,
    i: int,
)
    requires
        0 <= i < pieces.len() - 1,
        ranks.contains_key((pieces[i], pieces[i + 1])),
        forall|j: int|
            0 <= j < pieces.len() - 1 && ranks.contains_key((#[trigger] pieces[j], pieces[j + 1]))
                ==> ranks[(pieces[i], pieces[i + 1])] < ranks[(pieces[j], pieces[j + 1])] || (
            ranks[(pieces[i], pieces[i + 1])] == ranks[(pieces[j], pieces[j + 1])] && i <= j),
    ensures
        bpe(ranks, pieces) == bpe(
            ranks,
            pieces.take(i) + seq![pieces[i] + pieces[i + 1]] + pieces.skip(i + 2),
        ),
{
    assert forall|j: int| #[trigger] mergeable(ranks, pieces, j) implies ({
        let a = ranks[(pieces[i], pieces[i + 1])];
        let b = ranks[(pieces[j], pieces[j + 1])];
        a < b || (a == b && i <= j)
    }) by {
        assert(ranks.contains_key((pieces[j], pieces[j + 1])));
    }
    assert(is_best(ranks, pieces, i));
    best_merge_is_unique(ranks, pieces, i);
    assert(merge_at(pieces, i) =~= pieces.take(i) + seq![pieces[i] + pieces[i + 1]] + pieces.skip(
        i + 2,
    ));
}

/// Pieces of which no two neighbours may be merged are left as they are.
pub proof fn without_merges_pieces_stay(
    ranks: Map<(Seq<char>, Seq<char>), u32>,
    pieces: Seq<Seq<char>>,
)
    requires
        forall|j: int|
            0 <= j < pieces.len() - 1 ==> !ranks.contains_key(
                (#[trigger] pieces[j], pieces[j + 1]),
            ),
    ensures
        bpe(ranks, pieces) == pieces,
{
    if exists|i: int| is_best(ranks, pieces, i) {
        let i = choose|i: int| is_best(ranks, pieces, i);
        assert(!ranks.contains_key((pieces[i], pieces[i + 1])));
    }
}

/// Of two merges of three pieces the one that stands earlier in the list is made.
pub proof fn of_two_merges_the_earlier_is_made(
    merges: Seq<Seq<char>>,
    x: Seq<char>,
    y: Seq<char>,
    z: Seq<char>,
    p: int,
    q: int,
)
    requires
        merges.len() <= 0x1_0000_0000,
        0 <= p < merges.len(),
        0 <= q < merges.len(),
        p != q,
        no_space(y) && no_space(z),
        merges[p] == x + seq![' '] + y,
        merges[q] == y + seq![' '] + z,
        forall|j: int| p < j < merges.len() ==> merges[j] != merges[p],
        forall|j: int| q < j < merges.len() ==> merges[j] != merges[q],
        forall|j: int|
            0 <= j < merges.len() ==> #[trigger] merges[j] != (x + y) + seq![' '] + z && merges[j]
                != x + seq![' '] + (y + z),
    ensures
        p < q ==> bpe(merge_ranks(merges), seq![x, y, z]) == seq![x + y, z],
        q < p ==> bpe(merge_ranks(merges), seq![x, y, z]) == seq![x, y + z],
{
    let ranks = merge_ranks(merges);
    let pieces = seq![x, y, z];
    ranks_are_positions(merges, p, x, y);
    ranks_are_positions(merges, q, y, z);
    if ranks.contains_key((x + y, z)) {
        ranked_pairs_are_merges(merges, x + y, z);
    }
    if ranks.contains_key((x, y + z)) {
        ranked_pairs_are_merges(merges, x, y + z);
    }
    if p < q {
        lowest_rank_goes_first(ranks, pieces, 0);
        let next = pieces.take(0) + seq![pieces[0] + pieces[1]] + pieces.skip(2);
        assert(next =~= seq![x + y, z]);
        without_merges_pieces_stay(ranks, next);
    } else {
        lowest_rank_goes_first(ranks, pieces, 1);
        let next = pieces.take(1) + seq![pieces[1] + pieces[2]] + pieces.skip(3);
        assert(next =~= seq![x, y + z]);
        without_merges_pieces_stay(ranks, next);
    }
}

/// The rank of a merge is its position in the list, the last one where it occurs twice.
pub proof fn ranks_are_positions(
    merges: Seq<Seq<char>>,
    i: int,
    left: Seq<char>,
    right: Seq<char>,
)
    requires
        merges.len() <= 0x1_0000_0000,
        0 <= i < merges.len(),
        merges[i] == left + seq![' '] + right,
        no_space(right),
        forall|j: int| i < j < merges.len() ==> merges[j] != merges[i],
    ensures
        merge_ranks(merges).contains_key((left, right)),
        merge_ranks(merges)[(left, right)] == i,
    decreases merges.len(),
{
    assert(joined(left, right) =~= left + seq![' '] + right);
    assert(is_split(merges[i], (left, right)));
    let front = merges.drop_last();
    assert(front.push(merges.last()) =~= merges);
    merge_ranks_its_pair(front, merges.last());
    split_exists(merges.last());
    if i < merges.len() - 1 {
        ranks_are_positions(front, i, left, right);
        if !no_space(merges.last()) {
            let p = choose|p: (Seq<char>, Seq<char>)| is_split(merges.last(), p);
            assert(merges[merges.len() - 1] != merges[i]);
            assert(p != (left, right));
        }
    }
}

/// Only pairs that stand in the list of merges have a rank.
pub proof fn ranked_pairs_are_merges(
    merges: Seq<Seq<char>>,
    left: Seq<char>,
    right: Seq<char>,
)
    requires
        merge_ranks(merges).contains_key((left, right)),
    ensures
        exists|i: int| 0 <= i < merges.len() && #[trigger] merges[i] == left + seq![' '] + right,
    decreases merges.len(),
{
    if merges.len() > 0 {
        let front = merges.drop_last();
        assert(front.push(merges.last()) =~= merges);
        merge_ranks_its_pair(front, merges.last());
        split_exists(merges.last());
        assert(joined(left, right) =~= left + seq![' '] + right);
        if is_split(merges.last(), (left, right)) {
            assert(merges[merges.len() - 1] == left + seq![' '] + right);
        } else {
            if !no_space(merges.last()) {
                let p = choose|p: (Seq<char>, Seq<char>)| is_split(merges.last(), p);
                assert(p != (left, right));
            }
            ranked_pairs_are_merges(front, left, right);
            let i = choose|i: int| 0 <= i < front.len() && #[trigger] front[i] == left + seq![' ']
                + right;
            assert(merges[i] == front[i]);
        }
    }
}

/// The token of a text is its position in the vocabulary, the last one where it occurs
/// twice.
pub proof fn tokens_are_positions(vocab: Seq<Seq<char>>, i: int)
    requires
        vocab.len() <= 0x1_0000_0000,
        0 <= i < vocab.len(),
        forall|j: int| i < j < vocab.len() ==> vocab[j] != vocab[i],
    ensures
        vocab_ids(vocab).contains_key(vocab[i]),
        vocab_ids(vocab)[vocab[i]] == i,
    decreases vocab.len(),
{
    if i < vocab.len() - 1 {
        assert(vocab[vocab.len() - 1] != vocab[i]);
        tokens_are_positions(vocab.drop_last(), i);
    }
}

proof fn lemma_known_pieces(ids: Map<Seq<char>, u32>, pieces: Seq<Seq<char>>)
    requires
        forall|i: int| 0 <= i < pieces.len() ==> ids.contains_key(#[trigger] pieces[i]),
    ensures
        pieces_ids(ids, pieces) == Seq::new(pieces.len(), |i: int| ids[pieces[i]]),
    decreases pieces.len(),
{
    let all = Seq::new(pieces.len(), |i: int| ids[pieces[i]]);
    if pieces.len() > 0 {
        let front = pieces.drop_last();
        assert forall|i: int| 0 <= i < front.len() implies ids.contains_key(#[trigger] front[i]) by {
            assert(pieces[i] == front[i]);
        }
        lemma_known_pieces(ids, front);
        assert(ids.contains_key(pieces[pieces.len() - 1]));
    }
    assert(pieces_ids(ids, pieces) =~= all);
}

/// A text starts out as one piece per character, with blocks for spaces. Where all the
/// pieces that merging leaves are in the vocabulary, each is one token, in order.
pub proof fn known_pieces_are_one_token_each(v: Vocabulary, text: Seq<char>)
    ensures
        ({
            let chars = Seq::new(
                text.len(),
                |i: int|
                    if text[i] == ' ' {
                        seq!['\u{2581}']
                    } else {
                        seq![text[i]]
                    },
            );
            let pieces = bpe(v.ranks, chars);
            (forall|i: int| 0 <= i < pieces.len() ==> v.ids.contains_key(#[trigger] pieces[i]))
                ==> v.encoding(text) == Seq::new(pieces.len(), |i: int| v.ids[pieces[i]])
        }),
{
    let chars = Seq::new(
        text.len(),
        |i: int|
            if text[i] == ' ' {
                seq!['\u{2581}']
            } else {
                seq![text[i]]
            },
    );
    assert(singles(normalized(text)) =~= chars);
    let pieces = bpe(v.ranks, chars);
    if forall|i: int| 0 <= i < pieces.len() ==> v.ids.contains_key(#[trigger] pieces[i]) {
        lemma_known_pieces(v.ids, pieces);
    }
}

proof fn lemma_byte_ids_append(ids: Map<Seq<char>, u32>, a: Seq<u8>, b: Seq<u8>)
    ensures
        byte_ids(ids, a + b) == byte_ids(ids, a) + byte_ids(ids, b),
    decreases b.len(),
{
    if b.len() == 0 {
        assert(a + b =~= a);
        assert(byte_ids(ids, a) + byte_ids(ids, b) =~= byte_ids(ids, a));
    } else {
        assert((a + b).drop_last() =~= a + b.drop_last());
        lemma_byte_ids_append(ids, a, b.drop_last());
        assert(byte_ids(ids, a + b) =~= byte_ids(ids, a) + byte_ids(ids, b));
    }
}

/// A piece that is not in the vocabulary is spelt in its bytes: each stands for a token
/// of its own, whose text is the byte in two hexadecimal digits, and a byte without such
/// a token is left out. One piece does not matter to the next.
pub proof fn unknown_pieces_are_spelt_in_bytes(
    ids: Map<Seq<char>, u32>,
    before: Seq<Seq<char>>,
    piece: Seq<char>,
    at: int,
)
    requires
        !ids.contains_key(piece),
        0 <= at < encode_utf8(piece).len(),
    ensures
        ({
            let bytes = encode_utf8(piece);
            let digits = seq![
                '0', '1', '2', '3', '4', '5', '6', '7', '8', '9', 'A', 'B', 'C', 'D', 'E', 'F',
            ];
            let name = seq![
                '<', '0', 'x', digits[bytes[at] as int / 16], digits[bytes[at] as int % 16], '>',
            ];
            let own = byte_ids(ids, bytes);
            &&& pieces_ids(ids, before.push(piece)) == pieces_ids(ids, before) + own
            &&& own == byte_ids(ids, bytes.take(at)) + (if ids.contains_key(name) {
                seq![ids[name]]
            } else {
                seq![]
            }) + byte_ids(ids, bytes.skip(at + 1))
            &&& byte_ids(ids, seq![]) == Seq::<u32>::empty()
        }),
{
    let bytes = encode_utf8(piece);
    assert(before.push(piece).drop_last() =~= before);
    assert(pieces_ids(ids, before.push(piece)) == pieces_ids(ids, before) + byte_ids(ids, bytes));
    let one = seq![bytes[at]];
    assert(bytes =~= bytes.take(at) + one + bytes.skip(at + 1));
    lemma_byte_ids_append(ids, bytes.take(at) + one, bytes.skip(at + 1));
    lemma_byte_ids_append(ids, bytes.take(at), one);
    assert(one.drop_last() =~= seq![]);
    reveal_with_fuel(byte_ids, 2);
    let digits = seq![
        '0', '1', '2', '3', '4', '5', '6', '7', '8', '9', 'A', 'B', 'C', 'D', 'E', 'F',
    ];
    let name = seq![
        '<', '0', 'x', digits[bytes[at] as int / 16], digits[bytes[at] as int % 16], '>',
    ];
    assert(byte_name(bytes[at]) =~= name);
    assert(byte_ids(ids, one) =~= if ids.contains_key(name) {
        seq![ids[name]]
    } else {
        seq![]
    });
}

/// The special tokens of the chat format are these, and no others.
pub proof fn special_tokens_are_those_of_the_chat_format(s: Seq<char>)
    ensures
        specials().contains(s) <==> s == "<|turn>"@ || s == "<turn|>"@ || s == "<|channel>"@ || s
            == "<channel|>"@ || s == "<|think|>"@ || s == "<bos>"@ || s == "<eos>"@ || s
            == "<start_of_turn>"@ || s == "<end_of_turn>"@,
{
    let all = specials();
    assert(all[0] == "<|turn>"@ && all[1] == "<turn|>"@ && all[2] == "<|channel>"@);
    assert(all[3] == "<channel|>"@ && all[4] == "<|think|>"@ && all[5] == "<bos>"@);
    assert(all[6] == "<eos>"@ && all[7] == "<start_of_turn>"@ && all[8] == "<end_of_turn>"@);
}

/// Some special token stands at a position of a text.
pub open spec fn special_at(text: Seq<char>, i: int) -> bool {
    exists|k: int|
        0 <= k < specials().len() && i + (#[trigger] specials()[k]).len() <= text.len()
            && text.subrange(i, i + specials()[k].len()) == specials()[k]
}

/// A text without special tokens is encoded as it stands. Otherwise the first special
/// token parts it: what is before is encoded by itself, then comes the special token,
/// which is its own token, or else is encoded as text, and then the rest as if it
/// stood alone.
pub proof fn special_tokens_part_the_text(
    v: Vocabulary,
    a: Seq<char>,
    sp: Seq<char>,
    rest: Seq<char>,
)
    requires
        forall|i: int| 0 <= i < a.len() ==> !special_at(a + sp + rest, i),
        sp.len() > 0 ==> specials().contains(sp),
        sp.len() == 0 ==> rest.len() == 0,
    ensures
        sp.len() == 0 ==> v.special_encoding(a + sp + rest) == v.encoding(a),
        sp.len() > 0 && v.ids.contains_key(sp) ==> v.special_encoding(a + sp + rest) == v.encoding(
            a,
        ) + seq![v.ids[sp]] + v.special_encoding(rest),
        sp.len() > 0 && !v.ids.contains_key(sp) ==> v.special_encoding(a + sp + rest)
            == v.encoding(a) + v.encoding(sp) + v.special_encoding(rest),
{
    let text = a + sp + rest;
    crate::tokenizer::first_special_is_first(text);
    lemma_specials_differ();
    if sp.len() == 0 {
        assert(text =~= a);
        if let Some((i, k)) = first_special(text) {
            assert(stands_at(text, i, k));
            assert(specials()[k].len() > 0);
            assert(special_at(text, i));
        }
    } else {
        let k = choose|k: int| 0 <= k < specials().len() && specials()[k] == sp;
        let i = a.len() as int;
        assert(text.subrange(i, i + sp.len()) =~= sp);
        assert(stands_at(text, i, k));
        assert forall|j: int, m: int| #[trigger] stands_at(text, j, m) implies i < j || (i == j && k
            <= m) by {
            if j < i {
                assert(special_at(text, j));
            } else if j == i && m != k {
                let other = specials()[m];
                assert(text.subrange(i, i + other.len()) == other);
                assert forall|t: int| 0 <= t < 4 implies #[trigger] other[t] == sp[t] by {
                    assert(text.subrange(i, i + other.len())[t] == text[i + t]);
                    assert(text.subrange(i, i + sp.len())[t] == text[i + t]);
                }
                assert(other[1] == sp[1] && other[2] == sp[2] && other[3] == sp[3]);
            }
        }
        assert(is_first_special(text, i, k));
        assert(text.take(i) =~= a);
        assert(text.skip(i + sp.len()) =~= rest);
    }
}

proof fn lemma_specials_differ()
    ensures
        specials().len() == 9,
        forall|k: int| 0 <= k < 9 ==> (#[trigger] specials()[k]).len() >= 4,
        forall|k: int, m: int|
            0 <= k < 9 && 0 <= m < 9 && k != m ==> !((#[trigger] specials()[k])[1] == (
            #[trigger] specials()[m])[1] && specials()[k][2] == specials()[m][2]
                && specials()[k][3] == specials()[m][3]),
{
    reveal_strlit("<|turn>");
    reveal_strlit("<turn|>");
    reveal_strlit("<|channel>");
    reveal_strlit("<channel|>");
    reveal_strlit("<|think|>");
    reveal_strlit("<bos>");
    reveal_strlit("<eos>");
    reveal_strlit("<start_of_turn>");
    reveal_strlit("<end_of_turn>");
}

/// Tokens are decoded one by one: a token adds the bytes of its text, with a space for
/// each block. But the text of a byte, `<0x`, two hexadecimal digits in either case and
/// `>`, adds that byte.
pub proof fn tokens_are_decoded_one_by_one(v: Vocabulary, ids: Seq<u32>, id: u32)
    ensures
        ({
            let piece = v.vocab[id as int];
            let digit = |c: char, n: int|
                (0 <= n < 10 && c as int == 0x30 + n) || (10 <= n < 16 && (c as int == 0x61 + n - 10
                    || c as int == 0x41 + n - 10));
            let more = v.decoding(ids.push(id)).skip(v.decoding(ids).len() as int);
            &&& v.decoding(seq![]) == Seq::<u8>::empty()
            &&& v.decoding(ids.push(id)) == v.decoding(ids) + more
            &&& forall|high: int, low: int|
                0 <= high < 16 && 0 <= low < 16 && piece.len() == 6 && piece[0] == '<' && piece[1]
                    == '0' && piece[2] == 'x' && piece[5] == '>' && #[trigger] digit(
                    piece[3],
                    high,
                ) && #[trigger] digit(piece[4], low) ==> more == seq![(16 * high + low) as u8]
            &&& !(piece.len() == 6 && piece[0] == '<' && piece[1] == '0' && piece[2] == 'x'
                && piece[5] == '>') ==> more == encode_utf8(
                Seq::new(
                    piece.len(),
                    |i: int|
                        if piece[i] == '\u{2581}' {
                            ' '
                        } else {
                            piece[i]
                        },
                ),
            )
        }),
{
    let piece = v.vocab[id as int];
    assert(ids.push(id).drop_last() =~= ids);
    let more = v.decoding(ids.push(id)).skip(v.decoding(ids).len() as int);
    assert(more =~= piece_bytes(piece));
    assert(spaced(piece) =~= Seq::new(
        piece.len(),
        |i: int|
            if piece[i] == '\u{2581}' {
                ' '
            } else {
                piece[i]
            },
    ));
}

/// A tokenizer out of a file's metadata has its texts and merges in the order of the
/// file, and its numbers in 32 bits. It stops at `<turn|>`, or else at
/// `<end_of_turn>`.
pub proof fn tokenizer_is_that_of_the_file(meta: Map<Seq<char>, crate::gguf::Meta>, i: int)
    requires
        crate::tokenizer::vocabulary_of(meta) is Ok,
    ensures
        ({
            let v = crate::tokenizer::vocabulary_of(meta)->Ok_0;
            let items = meta["tokenizer.ggml.tokens"@]->Arr_0;
            let bos = meta["tokenizer.ggml.bos_token_id"@].as_u64();
            let eos = meta["tokenizer.ggml.eos_token_id"@].as_u64();
            let key = "tokenizer.ggml.merges"@;
            &&& meta["tokenizer.ggml.tokens"@] is Arr
            &&& v.vocab.len() == items.len()
            &&& 0 <= i < items.len() ==> v.vocab[i] == if items[i] is Str {
                items[i]->Str_0
            } else {
                seq![]
            }
            &&& bos is Some && v.bos == bos->0 as int % 0x1_0000_0000
            &&& eos is Some && v.eos == eos->0 as int % 0x1_0000_0000
            &&& v.ids == vocab_ids(v.vocab)
            &&& !(meta.contains_key(key) && meta[key] is Arr) ==> v.ranks == Map::<
                (Seq<char>, Seq<char>),
                u32,
            >::empty()
            &&& meta.contains_key(key) && meta[key] is Arr ==> {
                let merges = meta[key]->Arr_0;
                exists|list: Seq<Seq<char>>|
                    {
                        &&& list.len() == merges.len()
                        &&& 0 <= i < merges.len() ==> list[i] == if merges[i] is Str {
                            merges[i]->Str_0
                        } else {
                            seq![]
                        }
                        &&& v.ranks == #[trigger] merge_ranks(list)
                    }
            }
            &&& v.ids.contains_key("<turn|>"@) ==> v.eot == Some(v.ids["<turn|>"@])
            &&& !v.ids.contains_key("<turn|>"@) && v.ids.contains_key("<end_of_turn>"@) ==> v.eot
                == Some(v.ids["<end_of_turn>"@])
            &&& !v.ids.contains_key("<turn|>"@) && !v.ids.contains_key("<end_of_turn>"@) ==> v.eot
                is None
        }),
{
    let key = "tokenizer.ggml.merges"@;
    if meta.contains_key(key) && meta[key] is Arr {
        let list = crate::tokenizer::strings(meta[key]->Arr_0);
        assert(crate::tokenizer::vocabulary_of(meta)->Ok_0.ranks == merge_ranks(list));
    }
}

/// A file has a tokenizer exactly where it has a list of tokens and the numbers of those
/// that begin and end a sequence, and the first that is missing is what is wrong with it.
pub proof fn whole_files_have_tokenizers(meta: Map<Seq<char>, crate::gguf::Meta>)
    ensures
        ({
            let tokens = "tokenizer.ggml.tokens"@;
            let bos = "tokenizer.ggml.bos_token_id"@;
            let eos = "tokenizer.ggml.eos_token_id"@;
            let r = crate::tokenizer::vocabulary_of(meta);
            let has_tokens = meta.contains_key(tokens) && meta[tokens] is Arr;
            let has_bos = meta.contains_key(bos) && meta[bos].as_u64() is Some;
            let has_eos = meta.contains_key(eos) && meta[eos].as_u64() is Some;
            &&& r is Ok <==> has_tokens && has_bos && has_eos
            &&& !has_tokens ==> r->Err_0 is MissingTokens
            &&& has_tokens && !has_bos ==> r->Err_0 is MissingBos
            &&& has_tokens && has_bos && !has_eos ==> r->Err_0 is MissingEos
        }),
{
}

/// A tokenizer says what it holds: the texts of its tokens, the token of each text, the
/// rank of each merge by its two pieces, and its special tokens.
pub proof fn tokenizers_say_what_they_hold(
    t: crate::tokenizer::Tokenizer,
    left: Seq<char>,
    right: Seq<char>,
    i: int,
)
    requires
        no_space(right),
    ensures
        t@.vocab.len() == t.vocab@.len(),
        0 <= i < t.vocab@.len() ==> t@.vocab[i] == t.vocab@[i]@,
        t@.ids == t.id_of@,
        t@.ranks.contains_key((left, right)) <==> t.merge_rank@.contains_key(
            left + seq![' '] + right,
        ),
        t@.ranks.contains_key((left, right)) ==> t@.ranks[(left, right)] == t.merge_rank@[left
            + seq![' '] + right],
        t@.bos == t.bos,
        t@.eos == t.eos,
        t@.eot == t.eot,
{
    assert(joined(left, right) =~= left + seq![' '] + right);
}

/// A token whose text only looks like that of a byte is decoded as text: where the two
/// characters are no hexadecimal digits. A plus sign and one digit count as that digit.
pub proof fn other_tokens_are_decoded_as_text(v: Vocabulary, ids: Seq<u32>, id: u32)
    requires
        v.vocab[id as int].len() == 6,
    ensures
        ({
            let piece = v.vocab[id as int];
            let hex = |c: char| '0' <= c <= '9' || 'a' <= c <= 'f' || 'A' <= c <= 'F';
            let more = v.decoding(ids.push(id)).skip(v.decoding(ids).len() as int);
            &&& !hex(piece[4]) || !(hex(piece[3]) || piece[3] == '+') ==> more == encode_utf8(
                Seq::new(
                    6,
                    |i: int|
                        if piece[i] == '\u{2581}' {
                            ' '
                        } else {
                            piece[i]
                        },
                ),
            )
            &&& piece[0] == '<' && piece[1] == '0' && piece[2] == 'x' && piece[5] == '>' && piece[3]
                == '+' && '0' <= piece[4] <= '9' ==> more == seq![
                (piece[4] as int - '0' as int) as u8,
            ]
        }),
{
    let piece = v.vocab[id as int];
    assert(ids.push(id).drop_last() =~= ids);
    let more = v.decoding(ids.push(id)).skip(v.decoding(ids).len() as int);
    assert(more =~= piece_bytes(piece));
    assert(spaced(piece) =~= Seq::new(
        6,
        |i: int|
            if piece[i] == '\u{2581}' {
                ' '
            } else {
                piece[i]
            },
    ));
}

} // verus!
