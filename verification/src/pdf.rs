//! Objects of PDF documents, as `lopdf` holds them.

use vstd::prelude::*;
use vstd::string::StringSliceAdditionalSpecFns;
use vstd::utf8::{decode_utf8, valid_utf8};

verus! {

/// What a PDF object holds.
pub enum PdfValue {
    Null,
    Boolean(bool),
    Integer(i64),
    /// A real number, as the bits of its single-precision form.
    Real(u32),
    Name(Seq<u8>),
    Text(Seq<u8>),
    Array(Seq<PdfValue>),
    Dictionary(Seq<(Seq<u8>, PdfValue)>),
    Stream(StreamValue),
    Reference(lopdf::ObjectId),
}

/// What a PDF stream holds: the entries of its dictionary, and its bytes as they are stored.
pub struct StreamValue {
    pub entries: Seq<(Seq<u8>, PdfValue)>,
    pub content: Seq<u8>,
}

/// A document of `lopdf`.
#[verifier::external_type_specification]
#[verifier::external_body]
pub struct ExDocument(lopdf::Document);

/// A dictionary of `lopdf`.
#[verifier::external_type_specification]
#[verifier::external_body]
pub struct ExDictionary(lopdf::Dictionary);

/// An object of `lopdf`.
#[verifier::external_type_specification]
#[verifier::external_body]
pub struct ExObject(lopdf::Object);

/// A stream of `lopdf`.
#[verifier::external_type_specification]
#[verifier::external_body]
pub struct ExStream(lopdf::Stream);

/// An error of `lopdf`.
#[verifier::external_type_specification]
#[verifier::external_body]
pub struct ExError(lopdf::Error);

/// The objects of a document, by identifier.
pub uninterp spec fn document_objects(doc: lopdf::Document) -> Map<lopdf::ObjectId, PdfValue>;

/// The entries of a dictionary, in the order in which they are walked.
pub uninterp spec fn dictionary_entries(dict: lopdf::Dictionary) -> Seq<(Seq<u8>, PdfValue)>;

/// What an object holds.
pub uninterp spec fn object_value(object: lopdf::Object) -> PdfValue;

/// What a stream holds.
pub uninterp spec fn stream_value(stream: lopdf::Stream) -> StreamValue;

/// What may come out where the filters of a stream with the given entries and stored bytes are
/// applied, on one machine or another: bytes, or none where they cannot be applied.
pub uninterp spec fn unfiltered(
    entries: Seq<(Seq<u8>, PdfValue)>,
    content: Seq<u8>,
) -> Set<Option<Seq<u8>>>;

/// The text of the given bytes, with the replacement character for what is no text.
pub uninterp spec fn lossy_text(bytes: Seq<u8>) -> Seq<char>;

/// The text of a name: what its bytes encode where they are text, and otherwise that with
/// replacement characters.
pub open spec fn name_text(bytes: Seq<u8>) -> Seq<char> {
    if valid_utf8(bytes) {
        decode_utf8(bytes)
    } else {
        lossy_text(bytes)
    }
}

/// The value under `key` in the entries of a dictionary.
pub open spec fn entry(entries: Seq<(Seq<u8>, PdfValue)>, key: Seq<u8>) -> Option<PdfValue>
    decreases entries.len(),
{
    if entries.len() == 0 {
        None
    } else if entries.last().0 == key {
        Some(entries.last().1)
    } else {
        entry(entries.drop_last(), key)
    }
}

/// The longest chain of references that is followed.
pub open spec fn most_hops() -> nat {
    128
}

/// What a value stands for once its references are followed, `hops` of them at most.
pub open spec fn followed(
    objects: Map<lopdf::ObjectId, PdfValue>,
    v: PdfValue,
    hops: nat,
) -> Option<PdfValue>
    decreases hops,
{
    match v {
        PdfValue::Reference(id) => if hops == 0 || !objects.contains_key(id) {
            None
        } else {
            followed(objects, objects[id], (hops - 1) as nat)
        },
        _ => Some(v),
    }
}

/// What a value stands for once its references are followed.
pub open spec fn resolved(
    objects: Map<lopdf::ObjectId, PdfValue>,
    v: PdfValue,
) -> Option<PdfValue> {
    followed(objects, v, most_hops())
}

/// What the objects of a list hold.
pub open spec fn values(objects: Seq<lopdf::Object>) -> Seq<PdfValue> {
    objects.map_values(|o: lopdf::Object| object_value(o))
}

/// The names in a list that holds nothing else.
pub open spec fn all_names(v: Seq<PdfValue>) -> Option<Seq<Seq<u8>>> {
    if forall|i: int| 0 <= i < v.len() ==> #[trigger] v[i] is Name {
        Some(v.map_values(|n: PdfValue| n->Name_0))
    } else {
        None
    }
}

/// The filters of a stream with the given entries, in the order in which they are applied: one
/// name, or a list of names.
pub open spec fn filter_names(entries: Seq<(Seq<u8>, PdfValue)>) -> Option<Seq<Seq<u8>>> {
    match entry(entries, "Filter".spec_bytes()) {
        Some(PdfValue::Name(name)) => Some(seq![name]),
        Some(PdfValue::Array(list)) => all_names(list),
        _ => None,
    }
}

/// The integer under `key`, or `otherwise` where there is none, but no less than one.
pub open spec fn sample(entries: Seq<(Seq<u8>, PdfValue)>, key: Seq<u8>, otherwise: int) -> int {
    match entry(entries, key) {
        Some(PdfValue::Integer(n)) if n >= 1 => n as int,
        Some(PdfValue::Integer(_)) => 1,
        _ => otherwise,
    }
}

/// How many bits a row has, as the parameters of a filter give it.
pub open spec fn row_bits(parameters: Seq<(Seq<u8>, PdfValue)>) -> int {
    sample(parameters, "Columns".spec_bytes(), 1) * sample(parameters, "Colors".spec_bytes(), 1)
        * sample(parameters, "BitsPerComponent".spec_bytes(), 8)
}

/// Whether a row is held in memory on its own while a filter with the given parameters is
/// applied.
pub open spec fn holds_row(parameters: Seq<(Seq<u8>, PdfValue)>) -> bool {
    entry(parameters, "Predictor".spec_bytes()) matches Some(PdfValue::Integer(n)) && 10 <= n <= 15
}

/// Whether a row is not too long for any machine: where it is held on its own, it takes at most
/// sixteen mebibytes, and otherwise its bits can be counted in 32 bits, also when they are rounded
/// up to whole bytes.
pub open spec fn row_fits(parameters: Seq<(Seq<u8>, PdfValue)>) -> bool {
    if holds_row(parameters) {
        row_bits(parameters) <= 0x800_0000
    } else {
        row_bits(parameters) <= u32::MAX - 7
    }
}

/// The parameters of the filter at `i`: the same for all filters, or one of a list.
pub open spec fn filter_parameters(entries: Seq<(Seq<u8>, PdfValue)>, i: int) -> Option<
    Seq<(Seq<u8>, PdfValue)>,
> {
    match entry(entries, "DecodeParms".spec_bytes()) {
        Some(PdfValue::Dictionary(parameters)) => Some(parameters),
        Some(PdfValue::Array(list)) if 0 <= i < list.len() => match list[i] {
            PdfValue::Dictionary(parameters) => Some(parameters),
            _ => None,
        },
        _ => None,
    }
}

/// Whether a filter looks at rows.
pub open spec fn looks_at_rows(name: Seq<u8>) -> bool {
    name == "FlateDecode".spec_bytes() || name == "LZWDecode".spec_bytes()
}

/// Whether no filter of a stream looks at rows that are too long for some machine.
pub open spec fn rows_fit(entries: Seq<(Seq<u8>, PdfValue)>) -> bool {
    filter_names(entries) matches Some(names) ==> forall|i: int|
        0 <= i < names.len() && looks_at_rows(#[trigger] names[i]) ==> (filter_parameters(
            entries,
            i,
        ) matches Some(parameters) ==> row_fits(parameters))
}

/// Whether a filter is one of those that can be applied.
pub open spec fn can_be_applied(name: Seq<u8>) -> bool {
    ||| name == "FlateDecode".spec_bytes()
    ||| name == "BrotliDecode".spec_bytes()
    ||| name == "LZWDecode".spec_bytes()
    ||| name == "ASCII85Decode".spec_bytes()
    ||| name == "ASCIIHexDecode".spec_bytes()
    ||| name == "RunLengthDecode".spec_bytes()
}

/// Whether all filters of a stream with the given entries can be applied.
pub open spec fn all_can_be_applied(entries: Seq<(Seq<u8>, PdfValue)>) -> bool {
    filter_names(entries) matches Some(names) ==> forall|i: int|
        0 <= i < names.len() ==> can_be_applied(#[trigger] names[i])
}

/// Whether the filters of a stream let `bytes` come out, or none: where no filters can be read
/// the stored bytes come out, and where one of them cannot be applied nothing does.
pub open spec fn filters_allow(stream: StreamValue, bytes: Option<Seq<u8>>) -> bool {
    &&& filter_names(stream.entries) is None ==> bytes == Some(stream.content)
    &&& !all_can_be_applied(stream.entries) ==> bytes is None
}

/// Whether `bytes` may come out where the filters of a stream are applied, or none where they
/// cannot be. Nothing else may, unless rows are so long that it depends on the machine.
pub open spec fn unpacks(stream: StreamValue, bytes: Option<Seq<u8>>) -> bool {
    &&& filters_allow(stream, bytes)
    &&& unfiltered(stream.entries, stream.content).contains(bytes)
    &&& rows_fit(stream.entries) ==> unfiltered(stream.entries, stream.content) == set![bytes]
}

/// `Document::get_dictionary` of `lopdf`: the dictionary that the object with the given
/// identifier stands for. It fails where there is no such object, its references lead nowhere,
/// or it stands for something else.
pub assume_specification<'a>[ lopdf::Document::get_dictionary ](
    doc: &'a lopdf::Document,
    id: lopdf::ObjectId,
) -> (r: Result<&'a lopdf::Dictionary, lopdf::Error>)
    ensures
        match r {
            Ok(dict) => document_objects(*doc).contains_key(id) && resolved(
                document_objects(*doc),
                document_objects(*doc)[id],
            ) == Some(PdfValue::Dictionary(dictionary_entries(*dict))),
            Err(_) => !(document_objects(*doc).contains_key(id) && resolved(
                document_objects(*doc),
                document_objects(*doc)[id],
            ) is Some && resolved(
                document_objects(*doc),
                document_objects(*doc)[id],
            )->0 is Dictionary),
        },
;

/// `Document::dereference` of `lopdf`: the object that an object stands for once its references
/// are followed. It fails where they lead nowhere, or there are too many. Which identifier was
/// the last is left unsaid.
pub assume_specification<'a>[ lopdf::Document::dereference ](
    doc: &'a lopdf::Document,
    object: &'a lopdf::Object,
) -> (r: Result<(Option<lopdf::ObjectId>, &'a lopdf::Object), lopdf::Error>)
    ensures
        match r {
            Ok(found) => resolved(document_objects(*doc), object_value(*object)) == Some(
                object_value(*found.1),
            ),
            Err(_) => resolved(document_objects(*doc), object_value(*object)) is None,
        },
;

/// `Dictionary::get` of `lopdf`: the object under a key. It fails where there is none.
pub assume_specification<'a>[ lopdf::Dictionary::get ](
    dict: &'a lopdf::Dictionary,
    key: &[u8],
) -> (r: Result<&'a lopdf::Object, lopdf::Error>)
    ensures
        match r {
            Ok(object) => entry(dictionary_entries(*dict), key@) == Some(object_value(*object)),
            Err(_) => entry(dictionary_entries(*dict), key@) is None,
        },
;

/// `Object::as_dict` of `lopdf`: the dictionary that an object is. It fails on all others.
pub assume_specification<'a>[ lopdf::Object::as_dict ](object: &'a lopdf::Object) -> (r: Result<
    &'a lopdf::Dictionary,
    lopdf::Error,
>)
    ensures
        match r {
            Ok(dict) => object_value(*object) == PdfValue::Dictionary(dictionary_entries(*dict)),
            Err(_) => !(object_value(*object) is Dictionary),
        },
;

/// `Object::as_stream` of `lopdf`: the stream that an object is. It fails on all others.
pub assume_specification<'a>[ lopdf::Object::as_stream ](object: &'a lopdf::Object) -> (r: Result<
    &'a lopdf::Stream,
    lopdf::Error,
>)
    ensures
        match r {
            Ok(stream) => object_value(*object) == PdfValue::Stream(stream_value(*stream)),
            Err(_) => !(object_value(*object) is Stream),
        },
;

/// `Object::as_name` of `lopdf`: the bytes of the name that an object is. It fails on all others.
pub assume_specification<'a>[ lopdf::Object::as_name ](object: &'a lopdf::Object) -> (r: Result<
    &'a [u8],
    lopdf::Error,
>)
    ensures
        match r {
            Ok(name) => object_value(*object) == PdfValue::Name(name@),
            Err(_) => !(object_value(*object) is Name),
        },
;

/// `Object::as_array` of `lopdf`: the objects of the array that an object is. It fails on all
/// others.
pub assume_specification<'a>[ lopdf::Object::as_array ](object: &'a lopdf::Object) -> (r: Result<
    &'a Vec<lopdf::Object>,
    lopdf::Error,
>)
    ensures
        match r {
            Ok(list) => object_value(*object) == PdfValue::Array(values(list@)),
            Err(_) => !(object_value(*object) is Array),
        },
;

/// `Object::as_i64` of `lopdf`: the integer that an object is. It fails on all others.
pub assume_specification[ lopdf::Object::as_i64 ](object: &lopdf::Object) -> (r: Result<
    i64,
    lopdf::Error,
>)
    ensures
        match r {
            Ok(n) => object_value(*object) == PdfValue::Integer(n),
            Err(_) => !(object_value(*object) is Integer),
        },
;

/// `Object::as_f32` of `lopdf`: the bits of the real number that an object is. It fails on all
/// others.
#[verifier::external_body]
pub(crate) fn as_real_bits(object: &lopdf::Object) -> (r: Result<u32, lopdf::Error>)
    ensures
        match r {
            Ok(bits) => object_value(*object) == PdfValue::Real(bits),
            Err(_) => !(object_value(*object) is Real),
        },
{
    object.as_f32().map(|n| n.to_bits())
}

/// `Dictionary::iter` of `lopdf`: the keys of a dictionary and the objects under them, in order.
#[verifier::external_body]
pub(crate) fn entries_of<'a>(dict: &'a lopdf::Dictionary) -> (r: Vec<
    (&'a Vec<u8>, &'a lopdf::Object),
>)
    ensures
        r@.len() == dictionary_entries(*dict).len(),
        forall|i: int|
            0 <= i < r@.len() ==> dictionary_entries(*dict)[i] == (
                (#[trigger] r@[i]).0@,
                object_value(*r@[i].1),
            ),
{
    dict.iter().collect()
}

/// The dictionary of a stream of `lopdf`, its field `dict`.
#[verifier::external_body]
pub(crate) fn stream_dict<'a>(stream: &'a lopdf::Stream) -> (r: &'a lopdf::Dictionary)
    ensures
        dictionary_entries(*r) == stream_value(*stream).entries,
{
    &stream.dict
}

/// The stored bytes of a stream of `lopdf`, its field `content`.
#[verifier::external_body]
pub(crate) fn stream_content<'a>(stream: &'a lopdf::Stream) -> (r: &'a Vec<u8>)
    ensures
        r@ == stream_value(*stream).content,
{
    &stream.content
}

/// `Stream::filters` of `lopdf`: the names of the filters of a stream. It fails where there are
/// none, or they are not names.
pub assume_specification<'a>[ lopdf::Stream::filters ](stream: &'a lopdf::Stream) -> (r: Result<
    Vec<&'a [u8]>,
    lopdf::Error,
>)
    ensures
        match r {
            Ok(names) => filter_names(stream_value(*stream).entries) == Some(
                names@.map_values(|name: &[u8]| name@),
            ),
            Err(_) => filter_names(stream_value(*stream).entries) is None,
        },
;

/// `Stream::decompressed_content` of `lopdf`: the bytes of a stream, with its filters applied. It
/// fails where a filter is not one of those that can be applied, or its input or its parameters
/// are at fault. Where no filters can be read it gives the stored bytes. What it gives is one of
/// what may come out, and where rows are not too long it is all that may. Where a row that is held
/// on its own takes more than sixteen mebibytes it depends on the memory of the machine, and where
/// the bits of a row cannot be counted in 32 bits, on its word size: which of what may come out it
/// is there is left unsaid.
pub assume_specification[ lopdf::Stream::decompressed_content ](stream: &lopdf::Stream) -> (r:
    Result<Vec<u8>, lopdf::Error>)
    ensures
        match r {
            Ok(bytes) => filters_allow(stream_value(*stream), Some(bytes@)),
            Err(_) => filters_allow(stream_value(*stream), None),
        },
        unfiltered(stream_value(*stream).entries, stream_value(*stream).content).contains(
            match r {
                Ok(bytes) => Some(bytes@),
                Err(_) => None,
            },
        ),
        rows_fit(stream_value(*stream).entries) ==> unfiltered(
            stream_value(*stream).entries,
            stream_value(*stream).content,
        ) == set![match r {
            Ok(bytes) => Some(bytes@),
            Err(_) => None,
        }],
;

/// `Dictionary::clone` of `lopdf`: a dictionary with the same entries.
pub assume_specification[ <lopdf::Dictionary as std::clone::Clone>::clone ](
    dict: &lopdf::Dictionary,
) -> (r: lopdf::Dictionary)
    ensures
        dictionary_entries(r) == dictionary_entries(*dict),
;

/// `Stream::clone` of `lopdf`: a stream that holds the same.
pub assume_specification[ <lopdf::Stream as std::clone::Clone>::clone ](
    stream: &lopdf::Stream,
) -> (r: lopdf::Stream)
    ensures
        stream_value(r) == stream_value(*stream),
;

/// `String::from_utf8_lossy`: the text of the given bytes, which is what they encode where they
/// are text.
#[verifier::external_body]
pub(crate) fn from_utf8_lossy(bytes: &[u8]) -> (r: String)
    ensures
        r@ == lossy_text(bytes@),
        valid_utf8(bytes@) ==> r@ == decode_utf8(bytes@),
{
    String::from_utf8_lossy(bytes).into_owned()
}

} // verus!
