//! Byte-pair tokenizer of a model file: vocabulary and merge ranks come from
//! the file's metadata, spaces become a lower one eighth block, and characters
//! that no token covers fall back to one token per byte.

use crate::gguf::{Gguf, Value};
use crate::text::{chars_of, string_from_utf8_lossy, string_of};
use vstd::hash_map::StringHashMap;
use vstd::prelude::*;
use vstd::string::StringExecFns;

verus! {

/// Why a file's metadata gives no tokenizer.
#[derive(Debug, Clone, Copy, PartialEq, Eq)]
pub enum TokenizerError {
    /// There is no list of tokens.
    MissingTokens,
    /// There is no beginning-of-sequence token.
    MissingBos,
    /// There is no end-of-sequence token.
    MissingEos,
}

/// What a tokenizer knows.
#[verifier::ext_equal]
pub ghost struct Vocabulary {
    /// The text of each token.
    pub vocab: Seq<Seq<char>>,
    /// The token of each text.
    pub ids: Map<Seq<char>, u32>,
    /// The rank of each pair of pieces that may be merged.
    pub ranks: Map<(Seq<char>, Seq<char>), u32>,
    pub bos: u32,
    pub eos: u32,
    pub eot: Option<u32>,
}

/// A tokenizer.
pub struct Tokenizer {
    /// The text of each token.
    pub vocab: Vec<String>,
    /// The token of each text.
    pub id_of: StringHashMap<u32>,
    /// The rank of each merge, found by the two pieces with a space between.
    pub merge_rank: StringHashMap<u32>,
    pub bos: u32,
    pub eos: u32,
    /// The stop token of the chat format: `<turn|>` or `<end_of_turn>`.
    pub eot: Option<u32>,
}

impl View for Tokenizer {
    type V = Vocabulary;

    open spec fn view(&self) -> Vocabulary {
        Vocabulary {
            vocab: texts(self.vocab@),
            ids: self.id_of@,
            ranks: pair_ranks(self.merge_rank@),
            bos: self.bos,
            eos: self.eos,
            eot: self.eot,
        }
    }
}

/// The characters of each string.
pub open spec fn texts(v: Seq<String>) -> Seq<Seq<char>> {
    Seq::new(v.len(), |i: int| v[i]@)
}

/// No character of the text is a space.
pub open spec fn no_space(s: Seq<char>) -> bool {
    forall|i: int| 0 <= i < s.len() ==> s[i] != ' '
}

/// Two pieces with a space between.
pub open spec fn joined(left: Seq<char>, right: Seq<char>) -> Seq<char> {
    left.push(' ') + right
}

/// The ranks of pairs, out of the ranks of the joined pairs.
pub open spec fn pair_ranks(m: Map<Seq<char>, u32>) -> Map<(Seq<char>, Seq<char>), u32> {
    Map::new(
        |p: (Seq<char>, Seq<char>)| no_space(p.1) && m.contains_key(joined(p.0, p.1)),
        |p: (Seq<char>, Seq<char>)| m[joined(p.0, p.1)],
    )
}

/// The text with every space replaced by a lower one eighth block.
pub open spec fn normalized(text: Seq<char>) -> Seq<char> {
    Seq::new(
        text.len(),
        |i: int|
            if text[i] == ' ' {
                '\u{2581}'
            } else {
                text[i]
            },
    )
}

/// One piece for each character.
pub open spec fn singles(text: Seq<char>) -> Seq<Seq<char>> {
    Seq::new(text.len(), |i: int| seq![text[i]])
}

/// Piece `i` may be merged with the one behind it.
pub open spec fn mergeable(
    ranks: Map<(Seq<char>, Seq<char>), u32>,
    pieces: Seq<Seq<char>>,
    i: int,
) -> bool {
    0 <= i < pieces.len() - 1 && ranks.contains_key((pieces[i], pieces[i + 1]))
}

/// The merge of pieces `i` and `i + 1` has the lowest rank, and is the leftmost
/// of that rank.
pub open spec fn is_best(
    ranks: Map<(Seq<char>, Seq<char>), u32>,
    pieces: Seq<Seq<char>>,
    i: int,
) -> bool {
    &&& mergeable(ranks, pieces, i)
    &&& forall|j: int| #[trigger]
        mergeable(ranks, pieces, j) ==> {
            let a = ranks[(pieces[i], pieces[i + 1])];
            let b = ranks[(pieces[j], pieces[j + 1])];
            a < b || (a == b && i <= j)
        }
}

/// The pieces with pieces `i` and `i + 1` made one.
pub open spec fn merge_at(pieces: Seq<Seq<char>>, i: int) -> Seq<Seq<char>> {
    pieces.take(i).push(pieces[i] + pieces[i + 1]) + pieces.skip(i + 2)
}

/// The pieces that are left once the best merge has been made as often as there
/// is one.
pub open spec fn bpe(
    ranks: Map<(Seq<char>, Seq<char>), u32>,
    pieces: Seq<Seq<char>>,
) -> Seq<Seq<char>>
    decreases pieces.len(),
{
    if exists|i: int| is_best(ranks, pieces, i) {
        bpe(ranks, merge_at(pieces, choose|i: int| is_best(ranks, pieces, i)))
    } else {
        pieces
    }
}

/// The hexadecimal digit of a number below 16, in upper case.
pub open spec fn hex_digit(n: int) -> char {
    seq!['0', '1', '2', '3', '4', '5', '6', '7', '8', '9', 'A', 'B', 'C', 'D', 'E', 'F'][n]
}

/// The text of the token that stands for one byte, such as `<0x0A>`.
pub open spec fn byte_name(b: u8) -> Seq<char> {
    seq!['<', '0', 'x', hex_digit(b as int / 16), hex_digit(b as int % 16), '>']
}

/// One token per byte. Bytes without a token are left out.
pub open spec fn byte_ids(ids: Map<Seq<char>, u32>, bytes: Seq<u8>) -> Seq<u32>
    decreases bytes.len(),
{
    if bytes.len() == 0 {
        seq![]
    } else {
        let done = byte_ids(ids, bytes.drop_last());
        if ids.contains_key(byte_name(bytes.last())) {
            done.push(ids[byte_name(bytes.last())])
        } else {
            done
        }
    }
}

/// The tokens of one piece: its own, or else those of its bytes.
pub open spec fn piece_ids(ids: Map<Seq<char>, u32>, piece: Seq<char>) -> Seq<u32> {
    if ids.contains_key(piece) {
        seq![ids[piece]]
    } else {
        byte_ids(ids, vstd::utf8::encode_utf8(piece))
    }
}

/// The tokens of all pieces.
pub open spec fn pieces_ids(ids: Map<Seq<char>, u32>, pieces: Seq<Seq<char>>) -> Seq<u32>
    decreases pieces.len(),
{
    if pieces.len() == 0 {
        seq![]
    } else {
        pieces_ids(ids, pieces.drop_last()) + piece_ids(ids, pieces.last())
    }
}

impl Vocabulary {
    /// The tokens of a text without special tokens.
    pub open spec fn encoding(self, text: Seq<char>) -> Seq<u32> {
        pieces_ids(self.ids, bpe(self.ranks, singles(normalized(text))))
    }
}

/// The text of the token that stands for one byte.
fn name_of_byte(b: u8) -> (s: String)
    ensures
        s@ == byte_name(b),
{
    let digits: [char; 16] = [
        '0', '1', '2', '3', '4', '5', '6', '7', '8', '9', 'A', 'B', 'C', 'D', 'E', 'F',
    ];
    let mut s = String::new();
    s.push('<');
    s.push('0');
    s.push('x');
    s.push(digits[(b / 16) as usize]);
    s.push(digits[(b % 16) as usize]);
    s.push('>');
    assert(s@ =~= byte_name(b));
    s
}

impl Tokenizer {
    /// The rank of the merge of two pieces.
    fn rank(&self, left: &String, right: &String) -> (r: Option<u32>)
        requires
            no_space(right@),
        ensures
            match r {
                Some(v) => self@.ranks.contains_key((left@, right@)) && self@.ranks[(left@, right@)]
                    == v,
                None => !self@.ranks.contains_key((left@, right@)),
            },
    {
        let mut key = left.clone();
        key.push(' ');
        key.append(right.as_str());
        assert(key@ == joined(left@, right@));
        match self.merge_rank.get(key.as_str()) {
            Some(r) => Some(*r),
            None => None,
        }
    }

    /// The place of the best merge.
    fn best_merge(&self, pieces: &Vec<String>) -> (r: Option<usize>)
        requires
            forall|i: int| 0 <= i < pieces@.len() ==> no_space(#[trigger] pieces@[i]@),
        ensures
            match r {
                Some(i) => is_best(self@.ranks, texts(pieces@), i as int),
                None => forall|i: int| !is_best(self@.ranks, texts(pieces@), i),
            },
    {
        let ghost t = texts(pieces@);
        let ghost ranks = self@.ranks;
        let mut best: Option<(u32, usize)> = None;
        let mut i: usize = 0;
        let n: usize = pieces.len();
        while n > 0 && i < n - 1
            invariant
                n == pieces@.len(),
                forall|i: int| 0 <= i < pieces@.len() ==> no_space(#[trigger] pieces@[i]@),
                t == texts(pieces@),
                ranks == self@.ranks,
                pieces@.len() > 0 ==> i < pieces@.len(),
                pieces@.len() == 0 ==> i == 0,
                match best {
                    Some((r, k)) => {
                        &&& k < i
                        &&& mergeable(ranks, t, k as int)
                        &&& r == ranks[(t[k as int], t[k + 1])]
                        &&& forall|j: int|
                            j < i && #[trigger] mergeable(ranks, t, j) ==> {
                                let b = ranks[(t[j], t[j + 1])];
                                r < b || (r == b && k <= j)
                            }
                    },
                    None => forall|j: int| j < i ==> !#[trigger] mergeable(ranks, t, j),
                },
            decreases pieces@.len() - i,
        {
            match self.rank(&pieces[i], &pieces[i + 1]) {
                Some(r) => {
                    let better = match best {
                        Some((b, _)) => r < b,
                        None => true,
                    };
                    if better {
                        best = Some((r, i));
                    }
                },
                None => {},
            }
            i = i + 1;
        }
        match best {
            Some((_, k)) => {
                assert(is_best(ranks, t, k as int));
                Some(k)
            },
            None => None,
        }
    }

    /// The tokens of a text. Special tokens are not looked for: see
    /// `encode_with_specials`.
    pub fn encode(&self, text: &str) -> (r: Vec<u32>)
        ensures
            r@ == self@.encoding(text@),
    {
        let chars = chars_of(text);
        let mut pieces: Vec<String> = Vec::new();
        let mut k: usize = 0;
        while k < chars.len()
            invariant
                k <= chars@.len(),
                chars@ == text@,
                texts(pieces@) =~= singles(normalized(text@)).take(k as int),
                forall|i: int| 0 <= i < pieces@.len() ==> no_space(#[trigger] pieces@[i]@),
            decreases chars@.len() - k,
        {
            let mut piece = String::new();
            if chars[k] == ' ' {
                piece.push('\u{2581}');
            } else {
                piece.push(chars[k]);
            }
            let ghost done = texts(pieces@);
            assert(piece@ =~= singles(normalized(text@))[k as int]);
            pieces.push(piece);
            assert(texts(pieces@) =~= done.push(piece@));
            assert(singles(normalized(text@)).take(k + 1) =~= singles(normalized(text@)).take(
                k as int,
            ).push(piece@));
            k = k + 1;
        }
        let ghost goal = bpe(self@.ranks, singles(normalized(text@)));
        assert(texts(pieces@) =~= singles(normalized(text@)));
        loop
            invariant
                bpe(self@.ranks, texts(pieces@)) == goal,
                forall|i: int| 0 <= i < pieces@.len() ==> no_space(#[trigger] pieces@[i]@),
            ensures
                texts(pieces@) == goal,
            decreases pieces@.len(),
        {
            match self.best_merge(&pieces) {
                Some(i) => {
                    let ghost before = pieces@;
                    proof {
                        crate::tokenizer_laws::best_merge_is_unique(self@.ranks, texts(before), i as int);
                    }
                    let ghost n: usize = pieces.len();
                    assert(i + 1 < n);
                    let right = pieces.remove(i + 1);
                    let mut merged = pieces[i].clone();
                    merged.append(right.as_str());
                    assert(no_space(merged@)) by {
                        assert(no_space(before[i as int]@));
                        assert(no_space(before[i + 1]@));
                    }
                    pieces.set(i, merged);
                    assert(texts(pieces@) =~= merge_at(texts(before), i as int));
                    assert forall|j: int| 0 <= j < pieces@.len() implies no_space(
                        #[trigger] pieces@[j]@,
                    ) by {
                        if j > i {
                            assert(no_space(before[j + 1]@));
                        } else if j < i {
                            assert(no_space(before[j]@));
                        }
                    }
                },
                None => {
                    break;
                },
            }
        }
        self.ids_of_pieces(&pieces)
    }

    /// The tokens of all pieces.
    fn ids_of_pieces(&self, pieces: &Vec<String>) -> (r: Vec<u32>)
        ensures
            r@ == pieces_ids(self@.ids, texts(pieces@)),
    {
        let ghost t = texts(pieces@);
        let mut r: Vec<u32> = Vec::new();
        let mut i: usize = 0;
        assert(t.take(0) =~= seq![]);
        while i < pieces.len()
            invariant
                i <= pieces@.len(),
                t == texts(pieces@),
                r@ == pieces_ids(self@.ids, t.take(i as int)),
            decreases pieces@.len() - i,
        {
            assert(t.take(i + 1).drop_last() =~= t.take(i as int));
            assert(t.take(i + 1).last() == pieces@[i as int]@);
            match self.id_of.get(pieces[i].as_str()) {
                Some(id) => {
                    let ghost before = r@;
                    r.push(*id);
                    assert(r@ =~= before + seq![*id]);
                },
                None => {
                    let mut part = self.ids_of_bytes(pieces[i].as_str());
                    r.append(&mut part);
                },
            }
            i = i + 1;
        }
        assert(t.take(t.len() as int) =~= t);
        r
    }

    /// The tokens of the bytes of a text.
    fn ids_of_bytes(&self, s: &str) -> (r: Vec<u32>)
        ensures
            r@ == byte_ids(self@.ids, vstd::utf8::encode_utf8(s@)),
    {
        broadcast use vstd::string::group_string_axioms;

        let bytes = s.as_bytes();
        let ghost b = bytes@;
        let mut r: Vec<u32> = Vec::new();
        let mut i: usize = 0;
        assert(b.take(0) =~= seq![]);
        while i < bytes.len()
            invariant
                i <= bytes@.len(),
                b == bytes@,
                r@ == byte_ids(self@.ids, b.take(i as int)),
            decreases bytes@.len() - i,
        {
            assert(b.take(i + 1).drop_last() =~= b.take(i as int));
            assert(b.take(i + 1).last() == b[i as int]);
            match self.id_of.get(name_of_byte(bytes[i]).as_str()) {
                Some(id) => {
                    r.push(*id);
                },
                None => {},
            }
            i = i + 1;
        }
        assert(b.take(b.len() as int) =~= b);
        r
    }
}

/// The special tokens of the chat format.
pub open spec fn specials() -> Seq<Seq<char>> {
    seq![
        "<|turn>"@,
        "<turn|>"@,
        "<|channel>"@,
        "<channel|>"@,
        "<|think|>"@,
        "<bos>"@,
        "<eos>"@,
        "<start_of_turn>"@,
        "<end_of_turn>"@,
    ]
}

/// Special token `k` stands at position `i` of the text.
pub open spec fn stands_at(text: Seq<char>, i: int, k: int) -> bool {
    &&& 0 <= k < specials().len()
    &&& 0 <= i <= text.len() - specials()[k].len()
    &&& text.subrange(i, i + specials()[k].len()) == specials()[k]
}

/// Special token `k` at position `i` is the first in the text.
pub open spec fn is_first_special(text: Seq<char>, i: int, k: int) -> bool {
    &&& stands_at(text, i, k)
    &&& forall|j: int, m: int| #[trigger] stands_at(text, j, m) ==> i < j || (i == j && k <= m)
}

/// Where the first special token stands, and which it is.
pub open spec fn first_special(text: Seq<char>) -> Option<(int, int)> {
    if exists|i: int, k: int| is_first_special(text, i, k) {
        Some(choose|p: (int, int)| is_first_special(text, p.0, p.1))
    } else {
        None
    }
}

impl Vocabulary {
    /// The tokens of a special token: its own, or else those of its text.
    pub open spec fn special_ids(self, k: int) -> Seq<u32> {
        if self.ids.contains_key(specials()[k]) {
            seq![self.ids[specials()[k]]]
        } else {
            self.encoding(specials()[k])
        }
    }

    /// The tokens of a text in which special tokens may stand.
    pub open spec fn special_encoding(self, text: Seq<char>) -> Seq<u32>
        decreases text.len(),
        via Self::special_encoding_shrinks
    {
        match first_special(text) {
            Some((i, k)) => self.encoding(text.take(i)) + self.special_ids(k)
                + self.special_encoding(text.skip(i + specials()[k].len())),
            None => self.encoding(text),
        }
    }

    #[via_fn]
    proof fn special_encoding_shrinks(self, text: Seq<char>) {
        first_special_is_first(text);
        lemma_specials_not_empty();
    }
}

proof fn lemma_specials_not_empty()
    ensures
        specials().len() == 9,
        forall|k: int| 0 <= k < 9 ==> #[trigger] specials()[k].len() > 0,
{
    reveal_strlit("<|turn>");
    reveal_strlit("<turn|>");
    reveal_strlit("<|channel>");
    reveal_strlit("<channel|>");
    reveal_strlit("<|think|>");
    reveal_strlit("<bos>");
    reveal_strlit("<eos>");
    reveal_strlit("<start_of_turn>");
    reveal_strlit("<end_of_turn>");
}

/// `first_special` finds the first special token wherever there is one.
pub proof fn first_special_is_first(text: Seq<char>)
    ensures
        first_special(text) is Some ==> is_first_special(
            text,
            (first_special(text)->0).0,
            (first_special(text)->0).1,
        ),
        forall|i: int, k: int| #[trigger]
            is_first_special(text, i, k) ==> first_special(text) == Some((i, k)),
{
    if exists|i: int, k: int| is_first_special(text, i, k) {
        let (i, k) = choose|i: int, k: int| is_first_special(text, i, k);
        let p = (i, k);
        assert(is_first_special(text, p.0, p.1));
        let q = choose|p: (int, int)| is_first_special(text, p.0, p.1);
        assert(is_first_special(text, q.0, q.1));
        assert forall|j: int, m: int| #[trigger] is_first_special(text, j, m) implies q == (
            j,
            m,
        ) by {
            assert(stands_at(text, j, m));
            assert(stands_at(text, q.0, q.1));
        }
    }
}

/// The characters at `start` are those of `what`.
fn matches_at(chars: &Vec<char>, start: usize, what: &Vec<char>) -> (r: bool)
    requires
        start <= chars@.len(),
    ensures
        r <==> what@.len() <= chars@.len() - start && chars@.subrange(
            start as int,
            start + what@.len(),
        ) == what@,
{
    let n: usize = chars.len();
    if what.len() > n - start {
        return false;
    }
    let mut i: usize = 0;
    while i < what.len()
        invariant
            i <= what@.len(),
            start + what@.len() <= n,
            n == chars@.len(),
            forall|j: int| 0 <= j < i ==> chars@[start + j] == what@[j],
        decreases what@.len() - i,
    {
        if chars[start + i] != what[i] {
            assert(chars@.subrange(start as int, start + what@.len())[i as int] != what@[i as int]);
            return false;
        }
        i = i + 1;
    }
    assert(chars@.subrange(start as int, start + what@.len()) =~= what@);
    true
}

/// The characters of each special token.
fn special_chars() -> (r: Vec<Vec<char>>)
    ensures
        r@.len() == specials().len(),
        forall|k: int| 0 <= k < r@.len() ==> #[trigger] r@[k]@ == specials()[k],
{
    let mut r: Vec<Vec<char>> = Vec::new();
    r.push(chars_of("<|turn>"));
    r.push(chars_of("<turn|>"));
    r.push(chars_of("<|channel>"));
    r.push(chars_of("<channel|>"));
    r.push(chars_of("<|think|>"));
    r.push(chars_of("<bos>"));
    r.push(chars_of("<eos>"));
    r.push(chars_of("<start_of_turn>"));
    r.push(chars_of("<end_of_turn>"));
    r
}

/// The first special token from `start` on.
fn find_special(chars: &Vec<char>, start: usize, table: &Vec<Vec<char>>) -> (r: Option<
    (usize, usize),
>)
    requires
        start <= chars@.len(),
        table@.len() == specials().len(),
        forall|k: int| 0 <= k < table@.len() ==> #[trigger] table@[k]@ == specials()[k],
    ensures
        match r {
            Some((i, k)) => i >= start && first_special(chars@.skip(start as int)) == Some(
                (i - start, k as int),
            ),
            None => first_special(chars@.skip(start as int)) is None,
        },
{
    let ghost rest = chars@.skip(start as int);
    proof {
        first_special_is_first(rest);
        lemma_specials_not_empty();
    }
    let mut i: usize = start;
    while i < chars.len()
        invariant
            start <= i <= chars@.len(),
            rest == chars@.skip(start as int),
            table@.len() == specials().len(),
            forall|k: int| 0 <= k < table@.len() ==> #[trigger] table@[k]@ == specials()[k],
            forall|j: int, m: int| #[trigger] stands_at(rest, j, m) ==> i - start <= j,
            forall|i: int, k: int| #[trigger]
                is_first_special(rest, i, k) ==> first_special(rest) == Some((i, k)),
        decreases chars@.len() - i,
    {
        let mut k: usize = 0;
        while k < table.len()
            invariant
                start <= i < chars@.len(),
                k <= table@.len(),
                rest == chars@.skip(start as int),
                table@.len() == specials().len(),
                forall|k: int| 0 <= k < table@.len() ==> #[trigger] table@[k]@ == specials()[k],
                forall|j: int, m: int| #[trigger]
                    stands_at(rest, j, m) ==> i - start < j || (i - start == j && k <= m),
                forall|i: int, k: int| #[trigger]
                    is_first_special(rest, i, k) ==> first_special(rest) == Some((i, k)),
            decreases table@.len() - k,
        {
            assert(table@[k as int]@ == specials()[k as int]);
            if table[k].len() <= chars.len() - i {
                assert(rest.subrange(i - start, i - start + table@[k as int]@.len())
                    =~= chars@.subrange(i as int, i + table@[k as int]@.len()));
            }
            if matches_at(chars, i, &table[k]) {
                assert(stands_at(rest, i - start, k as int));
                assert(is_first_special(rest, i - start, k as int));
                return Some((i, k));
            }
            assert(!stands_at(rest, i - start, k as int));
            k = k + 1;
        }
        i = i + 1;
    }
    assert forall|j: int, m: int| !stands_at(rest, j, m) by {
        if stands_at(rest, j, m) {
            assert(specials()[m].len() > 0);
        }
    }
    None
}

impl Tokenizer {
    /// The tokens of a text in which special tokens may stand: their own for
    /// these, and those of `encode` for everything between.
    pub fn encode_with_specials(&self, text: &str) -> (r: Vec<u32>)
        ensures
            r@ == self@.special_encoding(text@),
    {
        let chars = chars_of(text);
        let len: usize = chars.len();
        let table = special_chars();
        let mut ids: Vec<u32> = Vec::new();
        let mut start: usize = 0;
        assert(chars@.skip(0) =~= text@);
        proof {
            lemma_specials_not_empty();
        }
        loop
            invariant
                start <= len == chars@.len(),
                chars@ == text@,
                table@.len() == specials().len(),
                specials().len() == 9,
                forall|k: int| 0 <= k < table@.len() ==> #[trigger] table@[k]@ == specials()[k],
                forall|k: int| 0 <= k < 9 ==> #[trigger] specials()[k].len() > 0,
                ids@ + self@.special_encoding(chars@.skip(start as int)) =~= self@.special_encoding(
                    text@,
                ),
            decreases chars@.len() - start,
        {
            let ghost rest = chars@.skip(start as int);
            let ghost before = ids@;
            proof {
                first_special_is_first(rest);
            }
            match find_special(&chars, start, &table) {
                Some((i, k)) => {
                    assert(stands_at(rest, i - start, k as int));
                    let part = string_of(&chars, start, i);
                    assert(part@ =~= rest.take(i - start));
                    let mut part_ids = self.encode(part.as_str());
                    ids.append(&mut part_ids);
                    let special = string_of(&table[k], 0, table[k].len());
                    assert(special@ =~= specials()[k as int]);
                    match self.id_of.get(special.as_str()) {
                        Some(id) => {
                            let ghost now = ids@;
                            ids.push(*id);
                            assert(ids@ =~= now + seq![*id]);
                        },
                        None => {
                            let mut special_ids = self.encode(special.as_str());
                            ids.append(&mut special_ids);
                        },
                    }
                    assert(ids@ =~= before + self@.encoding(rest.take(i - start))
                        + self@.special_ids(k as int));
                    let ghost at = i - start;
                    assert(i + table@[k as int]@.len() <= len);
                    start = i + table[k].len();
                    assert(chars@.skip(start as int) =~= rest.skip(
                        at + specials()[k as int].len(),
                    ));
                },
                None => {
                    let part = string_of(&chars, start, len);
                    assert(part@ =~= rest);
                    let mut part_ids = self.encode(part.as_str());
                    ids.append(&mut part_ids);
                    assert(ids@ =~= self@.special_encoding(text@));
                    return ids;
                },
            }
        }
    }
}

/// The value of a hexadecimal digit in either case.
pub open spec fn digit_value(c: char) -> Option<int> {
    if '0' <= c <= '9' {
        Some(c as int - '0' as int)
    } else if 'a' <= c <= 'f' {
        Some(c as int - 'a' as int + 10)
    } else if 'A' <= c <= 'F' {
        Some(c as int - 'A' as int + 10)
    } else {
        None
    }
}

/// The number that two characters write: two hexadecimal digits, or one behind
/// a plus sign.
pub open spec fn pair_value(a: char, b: char) -> Option<int> {
    match digit_value(b) {
        None => None,
        Some(low) => if a == '+' {
            Some(low)
        } else {
            match digit_value(a) {
                None => None,
                Some(high) => Some(16 * high + low),
            }
        },
    }
}

/// The byte that a piece such as `<0x0A>` stands for.
pub open spec fn byte_value(piece: Seq<char>) -> Option<u8> {
    if piece.len() == 6 && piece[0] == '<' && piece[1] == '0' && piece[2] == 'x' && piece[5] == '>'
    {
        match pair_value(piece[3], piece[4]) {
            Some(v) => Some(v as u8),
            None => None,
        }
    } else {
        None
    }
}

/// The text with every lower one eighth block replaced by a space.
pub open spec fn spaced(text: Seq<char>) -> Seq<char> {
    Seq::new(
        text.len(),
        |i: int|
            if text[i] == '\u{2581}' {
                ' '
            } else {
                text[i]
            },
    )
}

/// The bytes that a piece stands for.
pub open spec fn piece_bytes(piece: Seq<char>) -> Seq<u8> {
    match byte_value(piece) {
        Some(b) => seq![b],
        None => vstd::utf8::encode_utf8(spaced(piece)),
    }
}

impl Vocabulary {
    /// The tokens are all in the vocabulary.
    pub open spec fn knows(self, ids: Seq<u32>) -> bool {
        forall|i: int| 0 <= i < ids.len() ==> #[trigger] ids[i] < self.vocab.len()
    }

    /// The bytes that the tokens stand for.
    pub open spec fn decoding(self, ids: Seq<u32>) -> Seq<u8>
        decreases ids.len(),
    {
        if ids.len() == 0 {
            seq![]
        } else {
            self.decoding(ids.drop_last()) + piece_bytes(self.vocab[ids.last() as int])
        }
    }
}

/// The value of a hexadecimal digit in either case.
fn value_of_digit(c: char) -> (r: Option<u8>)
    ensures
        r is Some <==> digit_value(c) is Some,
        r is Some ==> r->0 == digit_value(c)->0 && r->0 < 16,
{
    if '0' <= c && c <= '9' {
        Some((c as u32 - '0' as u32) as u8)
    } else if 'a' <= c && c <= 'f' {
        Some((c as u32 - 'a' as u32) as u8 + 10)
    } else if 'A' <= c && c <= 'F' {
        Some((c as u32 - 'A' as u32) as u8 + 10)
    } else {
        None
    }
}

/// The byte that a piece such as `<0x0A>` stands for.
fn byte_of_piece(piece: &Vec<char>) -> (r: Option<u8>)
    ensures
        r == byte_value(piece@),
{
    if piece.len() == 6 && piece[0] == '<' && piece[1] == '0' && piece[2] == 'x' && piece[5] == '>'
    {
        match value_of_digit(piece[4]) {
            None => None,
            Some(low) => if piece[3] == '+' {
                Some(low)
            } else {
                match value_of_digit(piece[3]) {
                    None => None,
                    Some(high) => Some(16 * high + low),
                }
            },
        }
    } else {
        None
    }
}

impl Tokenizer {
    /// The bytes that the tokens stand for.
    pub fn decode_bytes(&self, ids: &[u32]) -> (r: Vec<u8>)
        requires
            self@.knows(ids@),
        ensures
            r@ == self@.decoding(ids@),
    {
        broadcast use vstd::string::group_string_axioms;

        let mut r: Vec<u8> = Vec::new();
        let mut i: usize = 0;
        assert(ids@.take(0) =~= seq![]);
        while i < ids.len()
            invariant
                i <= ids@.len(),
                self@.knows(ids@),
                r@ == self@.decoding(ids@.take(i as int)),
            decreases ids@.len() - i,
        {
            assert(ids@.take(i + 1).drop_last() =~= ids@.take(i as int));
            assert(ids@.take(i + 1).last() == ids@[i as int]);
            assert(ids@[i as int] < self@.vocab.len());
            let chars = chars_of(self.vocab[ids[i] as usize].as_str());
            let ghost piece = self@.vocab[ids@[i as int] as int];
            assert(chars@ == piece);
            match byte_of_piece(&chars) {
                Some(b) => {
                    let ghost before = r@;
                    r.push(b);
                    assert(r@ =~= before + seq![b]);
                },
                None => {
                    let mut text = String::new();
                    let mut k: usize = 0;
                    while k < chars.len()
                        invariant
                            k <= chars@.len(),
                            text@ =~= spaced(chars@).take(k as int),
                        decreases chars@.len() - k,
                    {
                        if chars[k] == '\u{2581}' {
                            text.push(' ');
                        } else {
                            text.push(chars[k]);
                        }
                        k = k + 1;
                    }
                    assert(text@ =~= spaced(piece));
                    r.extend_from_slice(text.as_str().as_bytes());
                },
            }
            i = i + 1;
        }
        assert(ids@.take(i as int) =~= ids@);
        r
    }

    /// The text that the tokens stand for. What is not valid UTF-8 comes out as
    /// replacement characters.
    pub fn decode(&self, ids: &[u32]) -> (s: String)
        requires
            self@.knows(ids@),
        ensures
            s@ == crate::text::utf8_lossy(self@.decoding(ids@)),
            vstd::utf8::valid_utf8(self@.decoding(ids@)) ==> s@ == vstd::utf8::decode_utf8(
                self@.decoding(ids@),
            ),
    {
        let bytes = self.decode_bytes(ids);
        string_from_utf8_lossy(&bytes)
    }

    /// The prompt of a single user turn in the chat format.
    pub fn chat_prompt(&self, user: &str) -> (s: String)
        ensures
            s@ == "<|turn>user\n"@ + user@ + "<turn|>\n<|turn>model\n<|channel>thought\n<channel|>"@,
    {
        let mut s = "<|turn>user\n".to_owned();
        s.append(user);
        s.append("<turn|>\n<|turn>model\n<|channel>thought\n<channel|>");
        s
    }
}

/// The strings of a metadata array. An element that is no string counts as an
/// empty one.
pub open spec fn strings(items: Seq<crate::gguf::Meta>) -> Seq<Seq<char>> {
    Seq::new(
        items.len(),
        |i: int|
            match items[i] {
                crate::gguf::Meta::Str(s) => s,
                _ => seq![],
            },
    )
}

/// A position as a token or a rank.
pub open spec fn number(i: int) -> u32 {
    (i % 0x1_0000_0000) as u32
}

/// The token of each text of a vocabulary: its position, and the last one where
/// a text occurs twice.
pub open spec fn vocab_ids(vocab: Seq<Seq<char>>) -> Map<Seq<char>, u32>
    decreases vocab.len(),
{
    if vocab.len() == 0 {
        Map::empty()
    } else {
        vocab_ids(vocab.drop_last()).insert(vocab.last(), number(vocab.len() - 1))
    }
}

/// The merge is written as these two pieces, with the last space between.
pub open spec fn is_split(merge: Seq<char>, p: (Seq<char>, Seq<char>)) -> bool {
    merge == joined(p.0, p.1) && no_space(p.1)
}

/// The rank of each merge: its position, and the last one where a merge occurs
/// twice. A merge without a space counts for nothing.
pub open spec fn merge_ranks(merges: Seq<Seq<char>>) -> Map<(Seq<char>, Seq<char>), u32>
    decreases merges.len(),
{
    if merges.len() == 0 {
        Map::empty()
    } else {
        let done = merge_ranks(merges.drop_last());
        if exists|p: (Seq<char>, Seq<char>)| is_split(merges.last(), p) {
            done.insert(
                choose|p: (Seq<char>, Seq<char>)| is_split(merges.last(), p),
                number(merges.len() - 1),
            )
        } else {
            done
        }
    }
}

/// The strings under a key of the metadata, where it holds an array.
pub open spec fn string_list(
    meta: Map<Seq<char>, crate::gguf::Meta>,
    key: Seq<char>,
) -> Option<Seq<Seq<char>>> {
    if meta.contains_key(key) {
        match meta[key] {
            crate::gguf::Meta::Arr(items) => Some(strings(items)),
            _ => None,
        }
    } else {
        None
    }
}

/// The token number under a key of the metadata.
pub open spec fn token_number(
    meta: Map<Seq<char>, crate::gguf::Meta>,
    key: Seq<char>,
) -> Option<u32> {
    if meta.contains_key(key) {
        match meta[key].as_u64() {
            Some(v) => Some(number(v as int)),
            None => None,
        }
    } else {
        None
    }
}

/// The stop token of the chat format: the token of `<turn|>`, else that of
/// `<end_of_turn>`.
pub open spec fn stop_token(ids: Map<Seq<char>, u32>) -> Option<u32> {
    if ids.contains_key("<turn|>"@) {
        Some(ids["<turn|>"@])
    } else if ids.contains_key("<end_of_turn>"@) {
        Some(ids["<end_of_turn>"@])
    } else {
        None
    }
}

/// The tokenizer that a file's metadata describes.
pub open spec fn vocabulary_of(meta: Map<Seq<char>, crate::gguf::Meta>) -> Result<
    Vocabulary,
    TokenizerError,
> {
    match string_list(meta, "tokenizer.ggml.tokens"@) {
        None => Err(TokenizerError::MissingTokens),
        Some(vocab) => match token_number(meta, "tokenizer.ggml.bos_token_id"@) {
            None => Err(TokenizerError::MissingBos),
            Some(bos) => match token_number(meta, "tokenizer.ggml.eos_token_id"@) {
                None => Err(TokenizerError::MissingEos),
                Some(eos) => {
                    let ids = vocab_ids(vocab);
                    Ok(
                        Vocabulary {
                            vocab,
                            ids,
                            ranks: match string_list(meta, "tokenizer.ggml.merges"@) {
                                Some(merges) => merge_ranks(merges),
                                None => Map::empty(),
                            },
                            bos,
                            eos,
                            eot: stop_token(ids),
                        },
                    )
                },
            },
        },
    }
}

/// A position as a token or a rank.
fn number_of(i: u64) -> (r: u32)
    ensures
        r == number(i as int),
{
    (i % 0x1_0000_0000) as u32
}

/// The strings under a key of the metadata.
fn list_of_strings(g: &Gguf, key: &str) -> (r: Option<Vec<String>>)
    ensures
        match r {
            Some(v) => string_list(g@.meta, key@) == Some(texts(v@)),
            None => string_list(g@.meta, key@) is None,
        },
{
    match g.meta.get(key) {
        Some(Value::Arr(items)) => {
            proof {
                crate::gguf::array_says_its_elements(*items);
            }
            let ghost want = strings(crate::gguf::metas(items@));
            let mut r: Vec<String> = Vec::new();
            let mut i: usize = 0;
            while i < items.len()
                invariant
                    i <= items@.len(),
                    want == strings(crate::gguf::metas(items@)),
                    texts(r@) =~= want.take(i as int),
                decreases items@.len() - i,
            {
                let ghost before = texts(r@);
                let s = match items[i].as_str() {
                    Some(s) => s.to_owned(),
                    None => String::new(),
                };
                assert(s@ =~= want[i as int]);
                r.push(s);
                assert(texts(r@) =~= before.push(s@));
                i = i + 1;
            }
            assert(texts(r@) =~= want);
            Some(r)
        },
        _ => None,
    }
}

/// The token number under a key of the metadata.
fn token_number_of(g: &Gguf, key: &str) -> (r: Option<u32>)
    ensures
        r == token_number(g@.meta, key@),
{
    match g.meta.get(key) {
        Some(v) => match v.as_u64() {
            Some(n) => Some(number_of(n)),
            None => None,
        },
        None => None,
    }
}

/// The token of each text of a vocabulary.
fn ids_of_vocab(vocab: &Vec<String>) -> (r: StringHashMap<u32>)
    ensures
        r@ == vocab_ids(texts(vocab@)),
{
    let ghost t = texts(vocab@);
    let mut r: StringHashMap<u32> = StringHashMap::new();
    let mut i: usize = 0;
    assert(t.take(0) =~= seq![]);
    while i < vocab.len()
        invariant
            i <= vocab@.len(),
            t == texts(vocab@),
            r@ == vocab_ids(t.take(i as int)),
        decreases vocab@.len() - i,
    {
        assert(t.take(i + 1).drop_last() =~= t.take(i as int));
        assert(t.take(i + 1).last() == vocab@[i as int]@);
        r.insert(vocab[i].clone(), number_of(i as u64));
        i = i + 1;
    }
    assert(t.take(i as int) =~= t);
    r
}

/// The text has a space.
fn has_space(s: &str) -> (r: bool)
    ensures
        r <==> !no_space(s@),
{
    let chars = chars_of(s);
    let mut i: usize = 0;
    while i < chars.len()
        invariant
            i <= chars@.len(),
            chars@ == s@,
            forall|j: int| 0 <= j < i ==> chars@[j] != ' ',
        decreases chars@.len() - i,
    {
        if chars[i] == ' ' {
            return true;
        }
        i = i + 1;
    }
    false
}

proof fn lemma_insert_rank(m: Map<Seq<char>, u32>, merge: Seq<char>, rank: u32)
    requires
        !no_space(merge),
    ensures
        exists|p: (Seq<char>, Seq<char>)| is_split(merge, p),
        pair_ranks(m.insert(merge, rank)) == pair_ranks(m).insert(
            choose|p: (Seq<char>, Seq<char>)| is_split(merge, p),
            rank,
        ),
{
    crate::tokenizer_laws::split_exists(merge);
    let p = choose|p: (Seq<char>, Seq<char>)| is_split(merge, p);
    let a = pair_ranks(m.insert(merge, rank));
    let b = pair_ranks(m).insert(p, rank);
    assert forall|q: (Seq<char>, Seq<char>)| #[trigger]
        a.contains_key(q) == b.contains_key(q) && (a.contains_key(q) ==> a[q] == b[q]) by {
        if no_space(q.1) && joined(q.0, q.1) == merge {
            crate::tokenizer_laws::split_is_unique(merge, q, p);
        }
    }
    assert(a =~= b);
}

/// The rank of each merge, found by its text.
fn ranks_of_merges(merges: &Vec<String>) -> (r: StringHashMap<u32>)
    ensures
        pair_ranks(r@) == merge_ranks(texts(merges@)),
{
    let ghost t = texts(merges@);
    let mut r: StringHashMap<u32> = StringHashMap::new();
    let mut i: usize = 0;
    assert(t.take(0) =~= seq![]);
    assert(pair_ranks(r@) =~= Map::empty());
    while i < merges.len()
        invariant
            i <= merges@.len(),
            t == texts(merges@),
            pair_ranks(r@) == merge_ranks(t.take(i as int)),
        decreases merges@.len() - i,
    {
        let ghost merge = merges@[i as int]@;
        assert(t.take(i + 1).drop_last() =~= t.take(i as int));
        assert(t.take(i + 1).last() == merge);
        if has_space(merges[i].as_str()) {
            proof {
                lemma_insert_rank(r@, merge, number(i as int));
            }
            r.insert(merges[i].clone(), number_of(i as u64));
        } else {
            proof {
                crate::tokenizer_laws::split_exists(merge);
            }
        }
        i = i + 1;
    }
    assert(t.take(i as int) =~= t);
    r
}

impl Tokenizer {
    /// The tokenizer that a file's metadata describes.
    pub fn from_gguf(g: &Gguf) -> (r: Result<Tokenizer, TokenizerError>)
        ensures
            match vocabulary_of(g@.meta) {
                Ok(v) => r is Ok && r->Ok_0@ == v,
                Err(e) => r is Err && r->Err_0 == e,
            },
    {
        let vocab = match list_of_strings(g, "tokenizer.ggml.tokens") {
            Some(v) => v,
            None => {
                return Err(TokenizerError::MissingTokens);
            },
        };
        let id_of = ids_of_vocab(&vocab);
        let merge_rank = match list_of_strings(g, "tokenizer.ggml.merges") {
            Some(merges) => ranks_of_merges(&merges),
            None => StringHashMap::new(),
        };
        assert(string_list(g@.meta, "tokenizer.ggml.merges"@) is None ==> pair_ranks(merge_rank@)
            =~= Map::empty());
        let bos = match token_number_of(g, "tokenizer.ggml.bos_token_id") {
            Some(id) => id,
            None => {
                return Err(TokenizerError::MissingBos);
            },
        };
        let eos = match token_number_of(g, "tokenizer.ggml.eos_token_id") {
            Some(id) => id,
            None => {
                return Err(TokenizerError::MissingEos);
            },
        };
        let eot = match id_of.get("<turn|>") {
            Some(id) => Some(*id),
            None => match id_of.get("<end_of_turn>") {
                Some(id) => Some(*id),
                None => None,
            },
        };
        Ok(Tokenizer { vocab, id_of, merge_rank, bos, eos, eot })
    }
}

} // verus!
