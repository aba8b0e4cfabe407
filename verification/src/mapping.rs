//! The tokenizer mapping: which text each token stands for.

use crate::json::{
    Json, indexed, json_of, member, members, parse_json, parsed, signed, unsigned,
};
use crate::text::characters;
use vstd::prelude::*;

verus! {

/// The vocabulary and the two special tokens that decoding needs.
pub struct Mapping {
    /// The text of each token; a token that the mapping leaves out has none.
    pub vocab: Vec<String>,
    /// The token that decoding starts from.
    pub bos: i64,
    /// The token that ends decoding.
    pub eos: i64,
}

/// What a mapping says.
#[verifier::ext_equal]
pub struct MappingModel {
    pub vocab: Seq<Seq<char>>,
    pub bos: i64,
    pub eos: i64,
}

/// Why a tokenizer mapping cannot be used.
#[derive(Clone, Copy, Debug, PartialEq, Eq, Structural)]
pub enum MappingError {
    /// The file is no JSON.
    Malformed,
    /// There is no `vocab_size` that is an integer from zero on.
    VocabSizeMissing,
    /// There is no `id_to_token` that is an object.
    TokensMissing,
    /// A key of `id_to_token` is not the number of a token.
    TokenId,
}

/// Whether a character is a decimal digit.
pub open spec fn is_digit(c: char) -> bool {
    '0' <= c && c <= '9'
}

/// The number that decimal digits write.
pub open spec fn decimal(digits: Seq<char>) -> nat
    decreases digits.len(),
{
    if digits.len() == 0 {
        0
    } else {
        10 * decimal(digits.drop_last()) + (digits.last() as nat - '0' as nat) as nat
    }
}

/// The digits of a number that may have a plus sign before them.
pub open spec fn unsigned_digits(s: Seq<char>) -> Seq<char> {
    if s.len() > 0 && s[0] == '+' {
        s.skip(1)
    } else {
        s
    }
}

/// The token that a key of the mapping names: a decimal number, with or without a plus sign.
pub open spec fn token_id(key: Seq<char>) -> Option<nat> {
    let digits = unsigned_digits(key);
    if digits.len() > 0 && (forall|i: int| 0 <= i < digits.len() ==> is_digit(#[trigger] digits[i]))
        && decimal(digits) <= usize::MAX {
        Some(decimal(digits))
    } else {
        None
    }
}

/// The text that the members of `id_to_token` give to a token: that of the last member that
/// names the token and holds a string.
pub open spec fn token_text(tokens: Seq<(Seq<char>, Json)>, id: nat) -> Seq<char>
    decreases tokens.len(),
{
    if tokens.len() == 0 {
        Seq::empty()
    } else {
        match tokens.last().1 {
            Json::Text(text) if token_id(tokens.last().0) == Some(id) => text,
            _ => token_text(tokens.drop_last(), id),
        }
    }
}

/// What a mapping file that holds the given value says, or why it cannot be used.
pub open spec fn mapping_of(file: Json) -> Result<MappingModel, MappingError> {
    let special = indexed(file, "special_tokens"@);
    match (unsigned(indexed(file, "vocab_size"@)), indexed(file, "id_to_token"@)) {
        (None, _) => Err(MappingError::VocabSizeMissing),
        (Some(size), Json::Object(tokens)) => if exists|i: int|
            0 <= i < tokens.len() && token_id(#[trigger] tokens[i].0) is None {
            Err(MappingError::TokenId)
        } else {
            Ok(
                MappingModel {
                    vocab: Seq::new(size as nat, |id: int| token_text(tokens, id as nat)),
                    bos: match signed(indexed(special, "bos_token_id"@)) {
                        Some(id) => id,
                        None => 0,
                    },
                    eos: match signed(indexed(special, "eos_token_id"@)) {
                        Some(id) => id,
                        None => 2,
                    },
                },
            )
        },
        (Some(_), _) => Err(MappingError::TokensMissing),
    }
}

/// The texts of a list of strings.
pub open spec fn texts(strings: Seq<String>) -> Seq<Seq<char>> {
    strings.map_values(|s: String| s@)
}

impl View for Mapping {
    type V = MappingModel;

    open spec fn view(&self) -> MappingModel {
        MappingModel { vocab: texts(self.vocab@), bos: self.bos, eos: self.eos }
    }
}

proof fn lemma_decimal_grows(digits: Seq<char>, k: int)
    requires
        0 <= k <= digits.len(),
    ensures
        decimal(digits.take(k)) <= decimal(digits),
    decreases digits.len() - k,
{
    if k == digits.len() {
        assert(digits.take(k) =~= digits);
    } else {
        assert(digits.take(k + 1).drop_last() =~= digits.take(k));
        lemma_decimal_grows(digits, k + 1);
    }
}

/// Reads the number of a token.
pub fn parse_token_id(key: &str) -> (r: Option<usize>)
    ensures
        r is Some <==> token_id(key@) is Some,
        r matches Some(id) ==> token_id(key@) == Some(id as nat),
{
    let chars = characters(key);
    let start: usize = if chars.len() > 0 && chars[0] == '+' {
        1
    } else {
        0
    };
    let ghost digits = unsigned_digits(key@);
    assert(digits =~= chars@.skip(start as int));
    if chars.len() == start {
        return None;
    }
    let mut id: usize = 0;
    let mut i: usize = start;
    while i < chars.len()
        invariant
            start <= i <= chars@.len(),
            digits == chars@.skip(start as int),
            digits == unsigned_digits(key@),
            digits.len() > 0,
            forall|j: int| 0 <= j < i - start ==> is_digit(#[trigger] digits[j]),
            id == decimal(digits.take(i - start)),
        decreases chars@.len() - i,
    {
        let c = chars[i];
        let ghost at = i - start;
        assert(digits[at] == c);
        if !(c >= '0' && c <= '9') {
            return None;
        }
        let digit: usize = (c as u32 - '0' as u32) as usize;
        proof {
            assert(digits.take(at + 1).drop_last() =~= digits.take(at));
            assert(decimal(digits.take(at + 1)) == 10 * id + digit);
            lemma_decimal_grows(digits, at + 1);
        }
        if id > (usize::MAX - digit) / 10 {
            return None;
        }
        id = id * 10 + digit;
        i = i + 1;
    }
    assert(digits.take(i - start) =~= digits);
    Some(id)
}

/// Appending a member changes the text of the token that it names, if it holds a string.
proof fn lemma_token_text_step(tokens: Seq<(Seq<char>, Json)>, k: int, id: nat)
    requires
        0 <= k < tokens.len(),
    ensures
        token_text(tokens.take(k + 1), id) == match tokens[k].1 {
            Json::Text(text) if token_id(tokens[k].0) == Some(id) => text,
            _ => token_text(tokens.take(k), id),
        },
{
    assert(tokens.take(k + 1).drop_last() =~= tokens.take(k));
}

impl Mapping {
    /// Reads the vocabulary and the special tokens out of the value that a mapping file holds.
    pub fn from_value(file: &serde_json::Value) -> (r: Result<Mapping, MappingError>)
        ensures
            match r {
                Ok(mapping) => mapping_of(json_of(*file)) == Ok::<_, MappingError>(mapping@),
                Err(e) => mapping_of(json_of(*file)) == Err::<MappingModel, _>(e),
            },
    {
        let size: u64 = match member(file, "vocab_size").as_u64() {
            Some(size) => size,
            None => return Err(MappingError::VocabSizeMissing),
        };
        let mut vocab: Vec<String> = Vec::new();
        while (vocab.len() as u64) < size
            invariant
                vocab@.len() <= size,
                forall|id: int| 0 <= id < vocab@.len() ==> (#[trigger] vocab@[id])@ == Seq::<
                    char,
                >::empty(),
            decreases size - vocab@.len(),
        {
            vocab.push(String::new());
        }
        let tokens = match members(member(file, "id_to_token")) {
            Some(tokens) => tokens,
            None => return Err(MappingError::TokensMissing),
        };
        let ghost entries = indexed(json_of(*file), "id_to_token"@)->Object_0;
        let mut k: usize = 0;
        while k < tokens.len()
            invariant
                k <= tokens@.len(),
                vocab@.len() == size,
                entries.len() == tokens@.len(),
                indexed(json_of(*file), "id_to_token"@) == Json::Object(entries),
                unsigned(indexed(json_of(*file), "vocab_size"@)) == Some(size),
                forall|j: int|
                    0 <= j < tokens@.len() ==> #[trigger] entries[j] == (
                        tokens@[j].0@,
                        json_of(*tokens@[j].1),
                    ),
                forall|j: int| 0 <= j < k ==> token_id(#[trigger] entries[j].0) is Some,
                forall|id: int|
                    0 <= id < size ==> (#[trigger] vocab@[id])@ == token_text(
                        entries.take(k as int),
                        id as nat,
                    ),
            decreases tokens@.len() - k,
        {
            let (key, token) = tokens[k];
            assert(entries[k as int] == (key@, json_of(*token)));
            let id: usize = match parse_token_id(key.as_str()) {
                Some(id) => id,
                None => return Err(MappingError::TokenId),
            };
            let text = token.as_str();
            proof {
                let next = entries.take(k + 1);
                assert forall|i: nat| #[trigger] token_text(next, i) == (if i == id
                    && text is Some {
                    text->0@
                } else {
                    token_text(entries.take(k as int), i)
                }) by {
                    lemma_token_text_step(entries, k as int, i);
                }
            }
            if id < vocab.len() {
                if let Some(text) = text {
                    vocab.set(id, text.to_string());
                }
            }
            k = k + 1;
        }
        assert(entries.take(k as int) =~= entries);
        let special = member(file, "special_tokens");
        let bos: i64 = match member(special, "bos_token_id").as_i64() {
            Some(id) => id,
            None => 0,
        };
        let eos: i64 = match member(special, "eos_token_id").as_i64() {
            Some(id) => id,
            None => 2,
        };
        let r = Mapping { vocab, bos, eos };
        assert(r@.vocab =~= Seq::new(size as nat, |id: int| token_text(entries, id as nat)));
        Ok(r)
    }

    /// Reads a mapping file.
    pub fn from_json(file: &[u8]) -> (r: Result<Mapping, MappingError>)
        ensures
            match r {
                Ok(mapping) => parsed(file@) is Some && mapping_of(parsed(file@)->0) == Ok::<
                    _,
                    MappingError,
                >(mapping@),
                Err(e) => if parsed(file@) is None {
                    e == MappingError::Malformed
                } else {
                    mapping_of(parsed(file@)->0) == Err::<MappingModel, _>(e)
                },
            },
    {
        match parse_json(file) {
            Ok(v) => Mapping::from_value(&v),
            Err(_) => Err(MappingError::Malformed),
        }
    }
}

/// Whether a member of `id_to_token` gives a text to a token.
pub open spec fn gives_text(tokens: Seq<(Seq<char>, Json)>, k: int, id: nat) -> bool {
    0 <= k < tokens.len() && token_id(tokens[k].0) == Some(id) && tokens[k].1 is Text
}

/// A token has the text that a member gives to it, where no later member does. So the order of
/// members that name different tokens does not matter.
pub proof fn law_text_given(tokens: Seq<(Seq<char>, Json)>, k: int, id: nat)
    requires
        gives_text(tokens, k, id),
        forall|j: int| k < j ==> !#[trigger] gives_text(tokens, j, id),
    ensures
        token_text(tokens, id) == tokens[k].1->Text_0,
    decreases tokens.len(),
{
    let last = tokens.len() - 1;
    if k < last {
        let before = tokens.drop_last();
        assert(!gives_text(tokens, last, id));
        assert forall|j: int| k < j implies !#[trigger] gives_text(before, j, id) by {
            assert(!gives_text(tokens, j, id));
        }
        law_text_given(before, k, id);
    }
}

/// A token to which no member gives a text has none.
pub proof fn law_no_text_given(tokens: Seq<(Seq<char>, Json)>, id: nat)
    requires
        forall|j: int| !#[trigger] gives_text(tokens, j, id),
    ensures
        token_text(tokens, id) == Seq::<char>::empty(),
    decreases tokens.len(),
{
    if tokens.len() > 0 {
        let before = tokens.drop_last();
        assert(!gives_text(tokens, tokens.len() - 1, id));
        assert forall|j: int| !#[trigger] gives_text(before, j, id) by {
            assert(!gives_text(tokens, j, id));
        }
        law_no_text_given(before, id);
    }
}

/// A key of one digit names the token of that number.
pub proof fn law_one_digit(c: char)
    requires
        '0' <= c <= '9',
    ensures
        token_id(seq![c]) == Some((c as nat - 48) as nat),
{
    let s = seq![c];
    assert(s.drop_last() =~= Seq::empty());
    assert(decimal(s.drop_last()) == 0);
    assert(s.last() == c);
}

/// A digit at the end of a key makes the number ten times as large, and adds to it. A number that
/// no `usize` holds names no token.
pub proof fn law_digit_appended(key: Seq<char>, c: char)
    requires
        '0' <= c <= '9',
        token_id(key) is Some,
    ensures
        token_id(key.push(c)) == (if 10 * token_id(key)->0 + (c as nat - 48) <= usize::MAX {
            Some((10 * token_id(key)->0 + (c as nat - 48)) as nat)
        } else {
            None
        }),
{
    let digits = unsigned_digits(key);
    let more = unsigned_digits(key.push(c));
    assert(more =~= digits.push(c));
    assert(more.drop_last() =~= digits);
    assert forall|i: int| 0 <= i < more.len() implies is_digit(#[trigger] more[i]) by {
        if i < digits.len() {
            assert(more[i] == digits[i]);
        }
    }
}

/// A plus sign before a number changes nothing.
pub proof fn law_plus_sign(key: Seq<char>)
    requires
        key.len() > 0,
        key[0] != '+',
    ensures
        token_id(seq!['+'] + key) == token_id(key),
{
    assert((seq!['+'] + key).skip(1) =~= key);
}

/// Nothing but digits names a token, and at least one of them.
pub proof fn law_no_number(key: Seq<char>, i: int)
    requires
        key.len() == 0 || key == seq!['+'] || (0 <= i < key.len() && !('0' <= key[i] <= '9') && !(i
            == 0 && key[i] == '+')),
    ensures
        token_id(key) is None,
{
    let digits = unsigned_digits(key);
    if key.len() > 0 && key != seq!['+'] {
        if key[0] == '+' {
            assert(digits[i - 1] == key[i]);
            assert(!is_digit(digits[i - 1]));
        } else {
            assert(!is_digit(digits[i]));
        }
    }
}

/// What a mapping with a size and a list of tokens says: as many tokens as the size, each with
/// the text of the last member that names it, and the two special tokens, which are 0 and 2 where
/// they are not given.
pub proof fn law_mapping_read(file: Json, size: u64, tokens: Seq<(Seq<char>, Json)>)
    requires
        unsigned(indexed(file, "vocab_size"@)) == Some(size),
        indexed(file, "id_to_token"@) == Json::Object(tokens),
        forall|i: int| 0 <= i < tokens.len() ==> token_id(#[trigger] tokens[i].0) is Some,
    ensures
        mapping_of(file) is Ok,
        mapping_of(file)->Ok_0.vocab.len() == size,
        forall|id: nat, k: int|
            #![trigger mapping_of(file)->Ok_0.vocab[id as int], tokens[k]]
            id < size && 0 <= k < tokens.len() && token_id(tokens[k].0) == Some(id)
                && tokens[k].1 is Text && (forall|j: int|
                k < j < tokens.len() && token_id((#[trigger] tokens[j]).0) == Some(id)
                    ==> !(tokens[j].1 is Text)) ==> mapping_of(file)->Ok_0.vocab[id as int]
                == tokens[k].1->Text_0,
        forall|id: nat|
            #![trigger mapping_of(file)->Ok_0.vocab[id as int]]
            id < size && (forall|j: int|
                0 <= j < tokens.len() && token_id((#[trigger] tokens[j]).0) == Some(id)
                    ==> !(tokens[j].1 is Text)) ==> mapping_of(file)->Ok_0.vocab[id as int].len()
                == 0,
        match signed(indexed(indexed(file, "special_tokens"@), "bos_token_id"@)) {
            Some(id) => mapping_of(file)->Ok_0.bos == id,
            None => mapping_of(file)->Ok_0.bos == 0,
        },
        match signed(indexed(indexed(file, "special_tokens"@), "eos_token_id"@)) {
            Some(id) => mapping_of(file)->Ok_0.eos == id,
            None => mapping_of(file)->Ok_0.eos == 2,
        },
{
    let vocab = mapping_of(file)->Ok_0.vocab;
    assert forall|id: nat, k: int|
        #![trigger vocab[id as int], tokens[k]]
        id < size && 0 <= k < tokens.len() && token_id(tokens[k].0) == Some(id) && tokens[k].1
            is Text && (forall|j: int|
            k < j < tokens.len() && token_id((#[trigger] tokens[j]).0) == Some(id) ==> !(
            tokens[j].1 is Text)) implies vocab[id as int] == tokens[k].1->Text_0 by {
        assert(gives_text(tokens, k, id));
        assert forall|j: int| k < j implies !#[trigger] gives_text(tokens, j, id) by {
            if gives_text(tokens, j, id) {
                assert(token_id(tokens[j].0) == Some(id));
            }
        }
        law_text_given(tokens, k, id);
    }
    assert forall|id: nat|
        #![trigger vocab[id as int]]
        id < size && (forall|j: int|
            0 <= j < tokens.len() && token_id((#[trigger] tokens[j]).0) == Some(id) ==> !(
            tokens[j].1 is Text)) implies vocab[id as int].len() == 0 by {
        assert forall|j: int| !#[trigger] gives_text(tokens, j, id) by {
            if gives_text(tokens, j, id) {
                assert(token_id(tokens[j].0) == Some(id));
            }
        }
        law_no_text_given(tokens, id);
    }
}

/// Why a mapping is refused: it has no size, or no tokens, or a key that names no token, and the
/// first of these counts.
pub proof fn law_mapping_refused(file: Json)
    ensures
        unsigned(indexed(file, "vocab_size"@)) is None <==> mapping_of(file) == Err::<
            MappingModel,
            _,
        >(MappingError::VocabSizeMissing),
        unsigned(indexed(file, "vocab_size"@)) is Some && !(indexed(file, "id_to_token"@) is Object)
            <==> mapping_of(file) == Err::<MappingModel, _>(MappingError::TokensMissing),
        forall|i: int|
            unsigned(indexed(file, "vocab_size"@)) is Some && indexed(file, "id_to_token"@)
                is Object && 0 <= i < indexed(file, "id_to_token"@)->Object_0.len() && token_id(
                #[trigger] indexed(file, "id_to_token"@)->Object_0[i].0,
            ) is None ==> mapping_of(file) == Err::<MappingModel, _>(MappingError::TokenId),
        mapping_of(file) != Err::<MappingModel, _>(MappingError::Malformed),
{
}

/// The texts of strings, in their order.
pub proof fn law_texts(strings: Seq<String>, i: int)
    ensures
        texts(strings).len() == strings.len(),
        0 <= i < strings.len() ==> texts(strings)[i] == strings[i]@,
{
}

/// A mapping says what its fields hold.
pub proof fn law_mapping_fields(mapping: Mapping)
    ensures
        mapping@.vocab == texts(mapping.vocab@),
        mapping@.bos == mapping.bos,
        mapping@.eos == mapping.eos,
{
}

} // verus!
