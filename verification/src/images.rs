//! Images and forms among the resources of a PDF page.
//!
//! They are found up front and kept apart from the document. An image stays as it is stored until
//! its pixels are asked for. A form has contents and resources of its own, which may hold further
//! forms.

use crate::names::{by_name, distinct, insert, law_by_name, lemma_at};
use crate::pdf::{
    PdfValue, StreamValue, all_can_be_applied, as_real_bits, dictionary_entries, document_objects,
    entries_of, entry, filter_names, from_utf8_lossy, lossy_text, name_text,
    object_value, resolved, rows_fit, stream_content, stream_dict, stream_value, unfiltered,
    unpacks,
};
use vstd::prelude::*;
use vstd::string::StringSliceAdditionalSpecFns;
use vstd::utf8::{decode_utf8, valid_utf8};

verus! {

/// How deep forms may stand within each other.
pub const MAX_FORM_DEPTH: usize = 4;

/// How the pixels of an image are given.
#[derive(Clone, Copy, Debug, PartialEq, Eq, Structural)]
pub enum ImageKind {
    /// Not at all: they are stored in a way that is not supported.
    Unsupported,
    /// As a JPEG file.
    Jpeg,
    /// As three bytes for each pixel, row by row.
    Rgb8,
    /// As one byte for each pixel, row by row.
    Gray8,
}

/// An image as it is stored.
pub struct XImage {
    pub width: u32,
    pub height: u32,
    /// The stream in which the image is stored, with its filters not applied.
    pub stream: lopdf::Stream,
}

/// What an image holds.
pub struct ImageModel {
    pub width: u32,
    pub height: u32,
    pub stream: StreamValue,
}

impl View for XImage {
    type V = ImageModel;

    open spec fn view(&self) -> ImageModel {
        ImageModel { width: self.width, height: self.height, stream: stream_value(self.stream) }
    }
}

/// The filter that stands for a JPEG file.
pub open spec fn jpeg_filter() -> Seq<u8> {
    "DCTDecode".spec_bytes()
}

/// What the bytes of a bitmap give: as many as there are pixels, or three times as many.
pub open spec fn bitmap(pixels: Seq<u8>, width: u32, height: u32) -> (ImageKind, Seq<u8>) {
    let count = width * height;
    if count > 0 && pixels.len() == 3 * count {
        (ImageKind::Rgb8, pixels)
    } else if count > 0 && pixels.len() == count {
        (ImageKind::Gray8, pixels)
    } else {
        (ImageKind::Unsupported, Seq::empty())
    }
}

/// Whether the last filter of a stream is the one that stands for a JPEG file.
pub open spec fn ends_in_jpeg(stream: StreamValue) -> bool {
    &&& filter_names(stream.entries) matches Some(names)
    &&& names.len() > 0
    &&& names.last() == jpeg_filter()
}

/// What an image gives whose last filter stands for a JPEG file: that file, where there is no
/// other filter.
pub open spec fn jpeg(stream: StreamValue) -> (ImageKind, Seq<u8>) {
    if filter_names(stream.entries) == Some(seq![jpeg_filter()]) {
        (ImageKind::Jpeg, stream.content)
    } else {
        (ImageKind::Unsupported, Seq::empty())
    }
}

/// Whether an image gives the pixels `p`.
pub open spec fn shows(image: ImageModel, p: (ImageKind, Seq<u8>)) -> bool {
    if ends_in_jpeg(image.stream) {
        p == jpeg(image.stream)
    } else {
        exists|unpacked: Option<Seq<u8>>| #[trigger]
            unpacks(image.stream, unpacked) && p == (match unpacked {
                Some(pixels) => bitmap(pixels, image.width, image.height),
                None => (ImageKind::Unsupported, Seq::empty()),
            })
    }
}

/// Whether two lists of bytes are the same.
fn same_bytes(a: &[u8], b: &[u8]) -> (r: bool)
    ensures
        r == (a@ == b@),
{
    if a.len() != b.len() {
        return false;
    }
    let mut i: usize = 0;
    while i < a.len()
        invariant
            a@.len() == b@.len(),
            i <= a@.len(),
            a@.take(i as int) == b@.take(i as int),
        decreases a@.len() - i,
    {
        if a[i] != b[i] {
            return false;
        }
        i = i + 1;
        assert(a@.take(i as int) =~= a@.take(i - 1).push(a@[i - 1]));
        assert(b@.take(i as int) =~= b@.take(i - 1).push(b@[i - 1]));
    }
    assert(a@.take(i as int) =~= a@);
    assert(b@.take(i as int) =~= b@);
    true
}

/// What the bytes of a bitmap of the given size give.
pub fn decode_bitmap(pixels: Vec<u8>, width: u32, height: u32) -> (r: (ImageKind, Vec<u8>))
    ensures
        (r.0, r.1@) == bitmap(pixels@, width, height),
{
    assert(width * height <= 0xffff_ffff * 0xffff_ffff) by (nonlinear_arith)
        requires
            width <= 0xffff_ffff,
            height <= 0xffff_ffff,
    ;
    assert(width * height >= 0) by (nonlinear_arith);
    let count: u64 = width as u64 * height as u64;
    if count == 0 {
        return (ImageKind::Unsupported, Vec::new());
    }
    let length: u64 = pixels.len() as u64;
    if length % 3 == 0 && length / 3 == count {
        (ImageKind::Rgb8, pixels)
    } else if length == count {
        (ImageKind::Gray8, pixels)
    } else {
        (ImageKind::Unsupported, Vec::new())
    }
}

impl XImage {
    /// The pixels of the image, and how they are given.
    pub fn decode(&self) -> (r: (ImageKind, Vec<u8>))
        ensures
            shows(self@, (r.0, r.1@)),
    {
        if let Ok(names) = self.stream.filters() {
            let count: usize = names.len();
            assert(filter_names(self@.stream.entries) == Some(
                names@.map_values(|name: &[u8]| name@),
            ));
            if count > 0 && same_bytes(names[count - 1], "DCTDecode".as_bytes()) {
                if count == 1 {
                    assert(names@.map_values(|name: &[u8]| name@) =~= seq![jpeg_filter()]);
                    return (ImageKind::Jpeg, stream_content(&self.stream).clone());
                }
                return (ImageKind::Unsupported, Vec::new());
            }
        }
        match self.stream.decompressed_content() {
            Ok(pixels) => {
                assert(unpacks(self@.stream, Some(pixels@)));
                decode_bitmap(pixels, self.width, self.height)
            },
            Err(_) => {
                assert(unpacks(self@.stream, None));
                (ImageKind::Unsupported, Vec::new())
            },
        }
    }
}

/// The dictionary under `key`, once references are followed.
pub open spec fn dictionary_under(
    objects: Map<lopdf::ObjectId, PdfValue>,
    entries: Seq<(Seq<u8>, PdfValue)>,
    key: Seq<u8>,
) -> Option<Seq<(Seq<u8>, PdfValue)>> {
    match entry(entries, key) {
        Some(v) => match resolved(objects, v) {
            Some(PdfValue::Dictionary(found)) => Some(found),
            _ => None,
        },
        None => None,
    }
}

/// The dictionary under `key`, once references are followed.
fn find_dictionary<'a>(doc: &'a lopdf::Document, dict: &'a lopdf::Dictionary, key: &[u8]) -> (r:
    Option<&'a lopdf::Dictionary>)
    ensures
        match r {
            Some(found) => dictionary_under(
                document_objects(*doc),
                dictionary_entries(*dict),
                key@,
            ) == Some(dictionary_entries(*found)),
            None => dictionary_under(
                document_objects(*doc),
                dictionary_entries(*dict),
                key@,
            ) is None,
        },
{
    match dict.get(key) {
        Ok(object) => match doc.dereference(object) {
            Ok((_, found)) => match found.as_dict() {
                Ok(found) => Some(found),
                Err(_) => None,
            },
            Err(_) => None,
        },
        Err(_) => None,
    }
}

/// The entries of the resources of a page.
pub open spec fn resources_of(
    objects: Map<lopdf::ObjectId, PdfValue>,
    page_id: lopdf::ObjectId,
) -> Option<Seq<(Seq<u8>, PdfValue)>> {
    if objects.contains_key(page_id) {
        match resolved(objects, objects[page_id]) {
            Some(PdfValue::Dictionary(page)) => dictionary_under(
                objects,
                page,
                "Resources".spec_bytes(),
            ),
            _ => None,
        }
    } else {
        None
    }
}

/// The resources of a page.
pub fn page_resources<'a>(doc: &'a lopdf::Document, page_id: lopdf::ObjectId) -> (r: Option<
    &'a lopdf::Dictionary,
>)
    ensures
        match r {
            Some(found) => resources_of(document_objects(*doc), page_id) == Some(
                dictionary_entries(*found),
            ),
            None => resources_of(document_objects(*doc), page_id) is None,
        },
{
    match doc.get_dictionary(page_id) {
        Ok(page) => find_dictionary(doc, page, "Resources".as_bytes()),
        Err(_) => None,
    }
}

/// The streams among the entries of a dictionary, with their names as text, once references are
/// followed.
pub open spec fn streams_among(
    objects: Map<lopdf::ObjectId, PdfValue>,
    entries: Seq<(Seq<u8>, PdfValue)>,
) -> Seq<(Seq<char>, StreamValue)>
    decreases entries.len(),
{
    if entries.len() == 0 {
        Seq::empty()
    } else {
        let before = streams_among(objects, entries.drop_last());
        match resolved(objects, entries.last().1) {
            Some(PdfValue::Stream(s)) => before.push((name_text(entries.last().0), s)),
            _ => before,
        }
    }
}

/// The streams among the external objects that resources name.
pub open spec fn external_streams(
    objects: Map<lopdf::ObjectId, PdfValue>,
    resources: Seq<(Seq<u8>, PdfValue)>,
) -> Seq<(Seq<char>, StreamValue)> {
    match dictionary_under(objects, resources, "XObject".spec_bytes()) {
        Some(named) => streams_among(objects, named),
        None => Seq::empty(),
    }
}

/// What a list of streams holds.
pub open spec fn held(streams: Seq<(String, lopdf::Stream)>) -> Seq<(Seq<char>, StreamValue)> {
    streams.map_values(|s: (String, lopdf::Stream)| (s.0@, stream_value(s.1)))
}

/// The streams among the external objects that resources name.
pub fn xobject_streams(doc: &lopdf::Document, res: &lopdf::Dictionary) -> (r: Vec<
    (String, lopdf::Stream),
>)
    ensures
        held(r@) == external_streams(document_objects(*doc), dictionary_entries(*res)),
{
    let mut r: Vec<(String, lopdf::Stream)> = Vec::new();
    let named = match find_dictionary(doc, res, "XObject".as_bytes()) {
        Some(named) => named,
        None => {
            assert(held(r@) =~= Seq::empty());
            return r;
        },
    };
    let ghost objects = document_objects(*doc);
    let ghost all = dictionary_entries(*named);
    let entries = entries_of(named);
    let mut i: usize = 0;
    assert(held(r@) =~= streams_among(objects, all.take(0)));
    while i < entries.len()
        invariant
            i <= entries@.len(),
            objects == document_objects(*doc),
            entries@.len() == all.len(),
            forall|k: int|
                0 <= k < entries@.len() ==> all[k] == (
                    (#[trigger] entries@[k]).0@,
                    object_value(*entries@[k].1),
                ),
            held(r@) == streams_among(objects, all.take(i as int)),
        decreases entries@.len() - i,
    {
        let (name, object) = entries[i];
        let ghost before = r@;
        assert(all.take(i + 1).drop_last() =~= all.take(i as int));
        assert(all[i as int] == (entries@[i as int].0@, object_value(*entries@[i as int].1)));
        if let Ok((_, found)) = doc.dereference(object) {
            if let Ok(stream) = found.as_stream() {
                r.push((from_utf8_lossy(name.as_slice()), stream.clone()));
                assert(held(r@) =~= held(before).push((name_text(name@), stream_value(*stream))));
            }
        }
        i = i + 1;
    }
    assert(all.take(i as int) =~= all);
    r
}

/// Whether a stream is of the given subtype.
pub open spec fn is_subtype(stream: StreamValue, subtype: Seq<u8>) -> bool {
    entry(stream.entries, "Subtype".spec_bytes()) == Some(PdfValue::Name(subtype))
}

/// The integer under `key`, or `otherwise` where there is none.
pub open spec fn integer_under(
    entries: Seq<(Seq<u8>, PdfValue)>,
    key: Seq<u8>,
    otherwise: i64,
) -> i64 {
    match entry(entries, key) {
        Some(PdfValue::Integer(n)) => n,
        _ => otherwise,
    }
}

/// The image that a stream holds: it has a width and a height, and eight bits for each color of a
/// pixel. Both lengths are taken modulo the count of 32-bit integers.
pub open spec fn image_in(stream: StreamValue) -> Option<ImageModel> {
    let width = integer_under(stream.entries, "Width".spec_bytes(), 0);
    let height = integer_under(stream.entries, "Height".spec_bytes(), 0);
    let bits = integer_under(stream.entries, "BitsPerComponent".spec_bytes(), 8);
    if is_subtype(stream, "Image".spec_bytes()) && width > 0 && height > 0 && bits == 8 {
        Some(
            ImageModel {
                width: (width as int % 0x1_0000_0000) as u32,
                height: (height as int % 0x1_0000_0000) as u32,
                stream,
            },
        )
    } else {
        None
    }
}

/// The images among streams, by name. Of two with the same name the later one counts.
pub open spec fn images_among(streams: Seq<(Seq<char>, StreamValue)>) -> Map<Seq<char>, ImageModel>
    decreases streams.len(),
{
    if streams.len() == 0 {
        Map::empty()
    } else {
        let before = images_among(streams.drop_last());
        match image_in(streams.last().1) {
            Some(image) => before.insert(streams.last().0, image),
            None => before,
        }
    }
}

/// What named images hold.
pub open spec fn depicted(images: Seq<(String, XImage)>) -> Map<Seq<char>, ImageModel> {
    by_name(images).map_values(|image: XImage| image@)
}

/// Whether a stream is of the given subtype.
fn has_subtype(stream: &lopdf::Stream, subtype: &[u8]) -> (r: bool)
    ensures
        r == is_subtype(stream_value(*stream), subtype@),
{
    match stream_dict(stream).get("Subtype".as_bytes()) {
        Ok(object) => match object.as_name() {
            Ok(name) => same_bytes(name, subtype),
            Err(_) => false,
        },
        Err(_) => false,
    }
}

/// The integer under `key`, or `otherwise` where there is none.
fn find_integer(dict: &lopdf::Dictionary, key: &[u8], otherwise: i64) -> (r: i64)
    ensures
        r == integer_under(dictionary_entries(*dict), key@, otherwise),
{
    match dict.get(key) {
        Ok(object) => match object.as_i64() {
            Ok(n) => n,
            Err(_) => otherwise,
        },
        Err(_) => otherwise,
    }
}

/// The remainder of a length as a 32-bit integer.
fn truncated(length: i64) -> (r: u32)
    requires
        length > 0,
    ensures
        r == length as int % 0x1_0000_0000,
{
    (length % 0x1_0000_0000) as u32
}

/// The image that a stream holds.
fn find_image(stream: &lopdf::Stream) -> (r: Option<XImage>)
    ensures
        match r {
            Some(image) => image_in(stream_value(*stream)) == Some(image@),
            None => image_in(stream_value(*stream)) is None,
        },
{
    if !has_subtype(stream, "Image".as_bytes()) {
        return None;
    }
    let dict = stream_dict(stream);
    let width: i64 = find_integer(dict, "Width".as_bytes(), 0);
    let height: i64 = find_integer(dict, "Height".as_bytes(), 0);
    let bits: i64 = find_integer(dict, "BitsPerComponent".as_bytes(), 8);
    if width <= 0 || height <= 0 || bits != 8 {
        return None;
    }
    Some(XImage { width: truncated(width), height: truncated(height), stream: stream.clone() })
}

/// The images that resources name.
pub fn build_images_from_resources(doc: &lopdf::Document, res: &lopdf::Dictionary) -> (r: Vec<
    (String, XImage),
>)
    ensures
        distinct(r@),
        depicted(r@) == images_among(
            external_streams(document_objects(*doc), dictionary_entries(*res)),
        ),
{
    let streams = xobject_streams(doc, res);
    let ghost all = held(streams@);
    let mut r: Vec<(String, XImage)> = Vec::new();
    let mut i: usize = 0;
    assert(depicted(r@) =~= images_among(all.take(0)));
    while i < streams.len()
        invariant
            i <= streams@.len(),
            all == held(streams@),
            distinct(r@),
            depicted(r@) == images_among(all.take(i as int)),
        decreases streams@.len() - i,
    {
        let ghost before = r@;
        assert(all.take(i + 1).drop_last() =~= all.take(i as int));
        if let Some(image) = find_image(&streams[i].1) {
            insert(&mut r, streams[i].0.clone(), image);
            assert(depicted(r@) =~= depicted(before).insert(all[i as int].0, image@));
        }
        i = i + 1;
    }
    assert(all.take(i as int) =~= all);
    r
}

/// The images among the resources of a page, by the names under which it shows them.
pub fn build_page_images(doc: &lopdf::Document, page_id: lopdf::ObjectId) -> (r: Vec<
    (String, XImage),
>)
    ensures
        distinct(r@),
        match resources_of(document_objects(*doc), page_id) {
            Some(resources) => depicted(r@) == images_among(
                external_streams(document_objects(*doc), resources),
            ),
            None => r@.len() == 0,
        },
{
    match page_resources(doc, page_id) {
        Some(res) => build_images_from_resources(doc, res),
        None => Vec::new(),
    }
}

/// A number as PDF writes it.
#[derive(Clone, Copy, Debug, PartialEq, Eq, Structural)]
pub enum Number {
    Integer(i64),
    /// The bits of a single-precision number.
    Real(u32),
}

/// An affine map of the plane: a point goes to `(a * x + c * y + e, b * x + d * y + f)`.
#[derive(Clone, Copy, Debug, PartialEq, Eq, Structural)]
pub struct Matrix {
    pub a: Number,
    pub b: Number,
    pub c: Number,
    pub d: Number,
    pub e: Number,
    pub f: Number,
}

/// The map that keeps each point where it is.
pub open spec fn identity_matrix() -> Matrix {
    Matrix {
        a: Number::Integer(1),
        b: Number::Integer(0),
        c: Number::Integer(0),
        d: Number::Integer(1),
        e: Number::Integer(0),
        f: Number::Integer(0),
    }
}

/// The number that a value is, and zero where it is none.
pub open spec fn number(v: PdfValue) -> Number {
    match v {
        PdfValue::Integer(n) => Number::Integer(n),
        PdfValue::Real(bits) => Number::Real(bits),
        _ => Number::Integer(0),
    }
}

/// The map of a form with the given entries: that which keeps each point, unless six values are
/// given for another.
pub open spec fn matrix_of(entries: Seq<(Seq<u8>, PdfValue)>) -> Matrix {
    match entry(entries, "Matrix".spec_bytes()) {
        Some(PdfValue::Array(list)) if list.len() == 6 => Matrix {
            a: number(list[0]),
            b: number(list[1]),
            c: number(list[2]),
            d: number(list[3]),
            e: number(list[4]),
            f: number(list[5]),
        },
        _ => identity_matrix(),
    }
}

impl Matrix {
    /// The map that keeps each point where it is.
    pub fn identity() -> (r: Matrix)
        ensures
            r == identity_matrix(),
    {
        Matrix {
            a: Number::Integer(1),
            b: Number::Integer(0),
            c: Number::Integer(0),
            d: Number::Integer(1),
            e: Number::Integer(0),
            f: Number::Integer(0),
        }
    }
}

/// The number that an object is, and zero where it is none.
fn number_of(object: &lopdf::Object) -> (r: Number)
    ensures
        r == number(object_value(*object)),
{
    match object.as_i64() {
        Ok(n) => Number::Integer(n),
        Err(_) => match as_real_bits(object) {
            Ok(bits) => Number::Real(bits),
            Err(_) => Number::Integer(0),
        },
    }
}

/// The map of a form with the given dictionary.
fn find_matrix(dict: &lopdf::Dictionary) -> (r: Matrix)
    ensures
        r == matrix_of(dictionary_entries(*dict)),
{
    match dict.get("Matrix".as_bytes()) {
        Ok(object) => match object.as_array() {
            Ok(list) => if list.len() == 6 {
                Matrix {
                    a: number_of(&list[0]),
                    b: number_of(&list[1]),
                    c: number_of(&list[2]),
                    d: number_of(&list[3]),
                    e: number_of(&list[4]),
                    f: number_of(&list[5]),
                }
            } else {
                Matrix::identity()
            },
            Err(_) => Matrix::identity(),
        },
        Err(_) => Matrix::identity(),
    }
}

/// A form: contents that are drawn under a map, with resources of their own.
pub struct FormX {
    /// The contents, with all filters applied.
    pub content: Vec<u8>,
    pub matrix: Matrix,
    /// The resources of the form, among them its fonts.
    pub resources: lopdf::Dictionary,
    /// The images among the resources.
    pub images: Vec<(String, XImage)>,
    /// The forms among the resources.
    pub forms: Vec<(String, FormX)>,
}

/// The entries of the resources of a form: its own, or those of what it stands in.
pub open spec fn form_resources(
    objects: Map<lopdf::ObjectId, PdfValue>,
    stream: StreamValue,
    around: Seq<(Seq<u8>, PdfValue)>,
) -> Seq<(Seq<u8>, PdfValue)> {
    match dictionary_under(objects, stream.entries, "Resources".spec_bytes()) {
        Some(own) => own,
        None => around,
    }
}

/// Whether `form` is the form that a stream holds whose filters give `content`, at the given
/// depth among resources with the entries `around`.
pub open spec fn is_form(
    objects: Map<lopdf::ObjectId, PdfValue>,
    stream: StreamValue,
    content: Seq<u8>,
    around: Seq<(Seq<u8>, PdfValue)>,
    depth: nat,
    form: FormX,
) -> bool
    decreases MAX_FORM_DEPTH - depth, 0nat,
{
    let resources = form_resources(objects, stream, around);
    &&& form.content@ == content
    &&& form.matrix == matrix_of(stream.entries)
    &&& dictionary_entries(form.resources) == resources
    &&& distinct(form.images@)
    &&& depicted(form.images@) == images_among(external_streams(objects, resources))
    &&& depth < MAX_FORM_DEPTH ==> are_forms(objects, resources, depth + 1, form.forms@)
}

/// Whether a form can be read from the stream at `i`, where `contents` come out of the filters.
pub open spec fn form_at(
    streams: Seq<(Seq<char>, StreamValue)>,
    contents: Seq<Option<Seq<u8>>>,
    i: int,
) -> bool {
    &&& 0 <= i < streams.len()
    &&& is_subtype(streams[i].1, "Form".spec_bytes())
    &&& contents[i] is Some
}

/// Whether the form at `i` is the last of its name.
pub open spec fn last_form_at(
    streams: Seq<(Seq<char>, StreamValue)>,
    contents: Seq<Option<Seq<u8>>>,
    i: int,
) -> bool {
    &&& form_at(streams, contents, i)
    &&& forall|j: int|
        i < j < streams.len() && #[trigger] form_at(streams, contents, j) ==> streams[j].0
            != streams[i].0
}

/// Whether `contents` may come out of the filters of the forms among streams.
pub open spec fn forms_unpack(
    streams: Seq<(Seq<char>, StreamValue)>,
    contents: Seq<Option<Seq<u8>>>,
) -> bool {
    &&& contents.len() == streams.len()
    &&& forall|i: int|
        0 <= i < streams.len() && is_subtype(streams[i].1, "Form".spec_bytes()) ==> unpacks(
            #[trigger] streams[i].1,
            contents[i],
        )
}

/// Whether `forms` are the forms among streams, each under its name. Of two with the same name
/// the later one counts.
pub open spec fn are_forms_among(
    objects: Map<lopdf::ObjectId, PdfValue>,
    streams: Seq<(Seq<char>, StreamValue)>,
    contents: Seq<Option<Seq<u8>>>,
    around: Seq<(Seq<u8>, PdfValue)>,
    depth: nat,
    forms: Seq<(String, FormX)>,
) -> bool
    decreases MAX_FORM_DEPTH - depth, 1nat,
{
    &&& distinct(forms)
    &&& forall|name: Seq<char>| #[trigger]
        by_name(forms).contains_key(name) <==> exists|i: int|
            form_at(streams, contents, i) && streams[i].0 == name
    &&& forall|i: int| #[trigger]
        last_form_at(streams, contents, i) ==> is_form(
            objects,
            streams[i].1,
            contents[i]->0,
            around,
            depth,
            by_name(forms)[streams[i].0],
        )
}

/// Whether `forms` are the forms that resources name, at the given depth.
pub open spec fn are_forms(
    objects: Map<lopdf::ObjectId, PdfValue>,
    resources: Seq<(Seq<u8>, PdfValue)>,
    depth: nat,
    forms: Seq<(String, FormX)>,
) -> bool
    decreases MAX_FORM_DEPTH - depth, 2nat,
{
    if depth >= MAX_FORM_DEPTH {
        forms.len() == 0
    } else {
        let streams = external_streams(objects, resources);
        exists|contents: Seq<Option<Seq<u8>>>| #[trigger]
            forms_unpack(streams, contents) && are_forms_among(
                objects,
                streams,
                contents,
                resources,
                depth,
                forms,
            )
    }
}

proof fn lemma_same_forms(
    streams: Seq<(Seq<char>, StreamValue)>,
    contents: Seq<Option<Seq<u8>>>,
    s: (Seq<char>, StreamValue),
    c: Option<Seq<u8>>,
)
    requires
        contents.len() == streams.len(),
    ensures
        forall|i: int|
            #![trigger form_at(streams.push(s), contents.push(c), i)]
            i < streams.len() ==> form_at(streams.push(s), contents.push(c), i) == form_at(
                streams,
                contents,
                i,
            ),
        forms_unpack(streams, contents) && (is_subtype(s.1, "Form".spec_bytes()) ==> unpacks(
            s.1,
            c,
        )) ==> forms_unpack(streams.push(s), contents.push(c)),
{
    let more = streams.push(s);
    let outcomes = contents.push(c);
    assert forall|i: int| i < streams.len() implies #[trigger] form_at(more, outcomes, i)
        == form_at(streams, contents, i) by {
        if 0 <= i {
            assert(more[i] == streams[i]);
            assert(outcomes[i] == contents[i]);
        }
    }
    if forms_unpack(streams, contents) && (is_subtype(s.1, "Form".spec_bytes()) ==> unpacks(
        s.1,
        c,
    )) {
        assert forall|i: int|
            0 <= i < more.len() && is_subtype(more[i].1, "Form".spec_bytes()) implies unpacks(
            #[trigger] more[i].1,
            outcomes[i],
        ) by {
            if i < streams.len() {
                assert(more[i].1 == streams[i].1);
                assert(outcomes[i] == contents[i]);
            }
        }
    }
}

/// A stream from which no form can be read adds nothing.
proof fn lemma_no_form(
    objects: Map<lopdf::ObjectId, PdfValue>,
    streams: Seq<(Seq<char>, StreamValue)>,
    contents: Seq<Option<Seq<u8>>>,
    around: Seq<(Seq<u8>, PdfValue)>,
    depth: nat,
    forms: Seq<(String, FormX)>,
    s: (Seq<char>, StreamValue),
    c: Option<Seq<u8>>,
)
    requires
        contents.len() == streams.len(),
        are_forms_among(objects, streams, contents, around, depth, forms),
        !is_subtype(s.1, "Form".spec_bytes()) || c is None,
    ensures
        are_forms_among(objects, streams.push(s), contents.push(c), around, depth, forms),
{
    let more = streams.push(s);
    let outcomes = contents.push(c);
    lemma_same_forms(streams, contents, s, c);
    assert(!form_at(more, outcomes, streams.len() as int));
    assert forall|name: Seq<char>| #[trigger]
        by_name(forms).contains_key(name) <==> exists|i: int|
            form_at(more, outcomes, i) && more[i].0 == name by {
        if by_name(forms).contains_key(name) {
            let i = choose|i: int| form_at(streams, contents, i) && streams[i].0 == name;
            assert(form_at(more, outcomes, i) && more[i].0 == name);
        }
        if exists|i: int| form_at(more, outcomes, i) && more[i].0 == name {
            let i = choose|i: int| form_at(more, outcomes, i) && more[i].0 == name;
            assert(form_at(streams, contents, i) && streams[i].0 == name);
        }
    }
    assert forall|i: int| #[trigger] last_form_at(more, outcomes, i) implies is_form(
        objects,
        more[i].1,
        outcomes[i]->0,
        around,
        depth,
        by_name(forms)[more[i].0],
    ) by {
        assert(form_at(streams, contents, i));
        assert forall|j: int|
            i < j < streams.len() && #[trigger] form_at(streams, contents, j) implies streams[j].0
            != streams[i].0 by {
            assert(form_at(more, outcomes, j));
        }
        assert(last_form_at(streams, contents, i));
    }
}

/// A stream from which a form is read adds it, in place of one with the same name.
proof fn lemma_form_added(
    objects: Map<lopdf::ObjectId, PdfValue>,
    streams: Seq<(Seq<char>, StreamValue)>,
    contents: Seq<Option<Seq<u8>>>,
    around: Seq<(Seq<u8>, PdfValue)>,
    depth: nat,
    forms: Seq<(String, FormX)>,
    s: (Seq<char>, StreamValue),
    c: Option<Seq<u8>>,
    form: FormX,
    after: Seq<(String, FormX)>,
)
    requires
        contents.len() == streams.len(),
        are_forms_among(objects, streams, contents, around, depth, forms),
        is_subtype(s.1, "Form".spec_bytes()),
        c is Some,
        is_form(objects, s.1, c->0, around, depth, form),
        distinct(after),
        by_name(after) == by_name(forms).insert(s.0, form),
    ensures
        are_forms_among(objects, streams.push(s), contents.push(c), around, depth, after),
{
    let more = streams.push(s);
    let outcomes = contents.push(c);
    lemma_same_forms(streams, contents, s, c);
    let last = streams.len() as int;
    assert(form_at(more, outcomes, last) && more[last].0 == s.0);
    assert forall|name: Seq<char>| #[trigger]
        by_name(after).contains_key(name) <==> exists|i: int|
            form_at(more, outcomes, i) && more[i].0 == name by {
        if by_name(forms).contains_key(name) {
            let i = choose|i: int| form_at(streams, contents, i) && streams[i].0 == name;
            assert(form_at(more, outcomes, i) && more[i].0 == name);
        }
        if exists|i: int| form_at(more, outcomes, i) && more[i].0 == name {
            let i = choose|i: int| form_at(more, outcomes, i) && more[i].0 == name;
            if i < last {
                assert(form_at(streams, contents, i) && streams[i].0 == name);
            }
        }
    }
    assert forall|i: int| #[trigger] last_form_at(more, outcomes, i) implies is_form(
        objects,
        more[i].1,
        outcomes[i]->0,
        around,
        depth,
        by_name(after)[more[i].0],
    ) by {
        if i < last {
            assert(form_at(streams, contents, i));
            assert(more[last].0 != more[i].0);
            assert forall|j: int|
                i < j < streams.len() && #[trigger] form_at(
                    streams,
                    contents,
                    j,
                ) implies streams[j].0 != streams[i].0 by {
                assert(form_at(more, outcomes, j));
            }
            assert(last_form_at(streams, contents, i));
        }
    }
}

/// The form that a stream holds whose filters give `content`, among the resources `res`.
pub fn build_form(
    doc: &lopdf::Document,
    stream: &lopdf::Stream,
    content: Vec<u8>,
    res: &lopdf::Dictionary,
    depth: usize,
) -> (r: FormX)
    requires
        depth < MAX_FORM_DEPTH,
    ensures
        is_form(
            document_objects(*doc),
            stream_value(*stream),
            content@,
            dictionary_entries(*res),
            depth as nat,
            r,
        ),
    decreases MAX_FORM_DEPTH - depth, 0nat,
{
    let dict = stream_dict(stream);
    let resources = match find_dictionary(doc, dict, "Resources".as_bytes()) {
        Some(own) => own,
        None => res,
    };
    FormX {
        content,
        matrix: find_matrix(dict),
        resources: resources.clone(),
        images: build_images_from_resources(doc, resources),
        forms: build_forms_from_resources(doc, resources, depth + 1),
    }
}

/// The forms that resources name, at the given depth. At the greatest depth they are left out, so
/// forms that name each other come to an end.
pub fn build_forms_from_resources(
    doc: &lopdf::Document,
    res: &lopdf::Dictionary,
    depth: usize,
) -> (r: Vec<(String, FormX)>)
    ensures
        are_forms(document_objects(*doc), dictionary_entries(*res), depth as nat, r@),
    decreases MAX_FORM_DEPTH - depth, 1nat,
{
    let mut r: Vec<(String, FormX)> = Vec::new();
    if depth >= MAX_FORM_DEPTH {
        return r;
    }
    let streams = xobject_streams(doc, res);
    let ghost objects = document_objects(*doc);
    let ghost around = dictionary_entries(*res);
    let ghost all = held(streams@);
    let ghost mut contents: Seq<Option<Seq<u8>>> = Seq::empty();
    let mut i: usize = 0;
    while i < streams.len()
        invariant
            depth < MAX_FORM_DEPTH,
            objects == document_objects(*doc),
            around == dictionary_entries(*res),
            i <= streams@.len(),
            all == held(streams@),
            forms_unpack(all.take(i as int), contents),
            are_forms_among(objects, all.take(i as int), contents, around, depth as nat, r@),
        decreases streams@.len() - i,
    {
        let name = &streams[i].0;
        let stream = &streams[i].1;
        let ghost before = r@;
        let ghost s = all[i as int];
        let ghost mut c: Option<Seq<u8>> = None;
        assert(s == (name@, stream_value(*stream)));
        assert(all.take(i + 1) =~= all.take(i as int).push(s));
        if has_subtype(stream, "Form".as_bytes()) {
            if let Ok(content) = stream.decompressed_content() {
                proof {
                    c = Some(content@);
                }
                let form = build_form(doc, stream, content, res, depth);
                insert(&mut r, name.clone(), form);
                proof {
                    lemma_form_added(
                        objects,
                        all.take(i as int),
                        contents,
                        around,
                        depth as nat,
                        before,
                        s,
                        c,
                        form,
                        r@,
                    );
                }
            }
        }
        proof {
            if c is None {
                lemma_no_form(
                    objects,
                    all.take(i as int),
                    contents,
                    around,
                    depth as nat,
                    before,
                    s,
                    c,
                );
            }
            lemma_same_forms(all.take(i as int), contents, s, c);
            contents = contents.push(c);
        }
        i = i + 1;
    }
    assert(all.take(i as int) =~= all);
    r
}

/// The forms among the resources of a page, by the names under which it draws them.
pub fn build_page_forms(doc: &lopdf::Document, page_id: lopdf::ObjectId) -> (r: Vec<
    (String, FormX),
>)
    ensures
        match resources_of(document_objects(*doc), page_id) {
            Some(resources) => are_forms(document_objects(*doc), resources, 0, r@),
            None => r@.len() == 0,
        },
{
    match page_resources(doc, page_id) {
        Some(res) => build_forms_from_resources(doc, res, 0),
        None => Vec::new(),
    }
}

/// The pixels of an image are as many bytes as their kind says: three or one for each pixel of a
/// bitmap, those of the stored file for a JPEG file, and none where they are not given.
pub proof fn law_pixel_bytes(image: ImageModel, p: (ImageKind, Seq<u8>))
    requires
        shows(image, p),
    ensures
        match p.0 {
            ImageKind::Rgb8 => p.1.len() == 3 * (image.width * image.height) && p.1.len() > 0,
            ImageKind::Gray8 => p.1.len() == image.width * image.height && p.1.len() > 0,
            ImageKind::Jpeg => p.1 == image.stream.content,
            ImageKind::Unsupported => p.1.len() == 0,
        },
{
}

/// An image is given as a JPEG file if and only if the filter for JPEG files is its only one.
pub proof fn law_jpeg_alone(image: ImageModel, p: (ImageKind, Seq<u8>))
    requires
        shows(image, p),
    ensures
        p.0 == ImageKind::Jpeg <==> filter_names(image.stream.entries) == Some(
            seq![jpeg_filter()],
        ),
{
    if filter_names(image.stream.entries) == Some(seq![jpeg_filter()]) {
        assert(seq![jpeg_filter()].last() == jpeg_filter());
    }
}

/// An image with a filter that cannot be applied, other than that of a JPEG file alone, gives no
/// pixels.
pub proof fn law_unknown_filter(image: ImageModel, p: (ImageKind, Seq<u8>))
    requires
        shows(image, p),
        !all_can_be_applied(image.stream.entries),
        filter_names(image.stream.entries) != Some(seq![jpeg_filter()]),
    ensures
        p == (ImageKind::Unsupported, Seq::<u8>::empty()),
{
}

/// The stored bytes of an image without filters are its bitmap.
pub proof fn law_plain_bitmap(image: ImageModel, p: (ImageKind, Seq<u8>))
    requires
        shows(image, p),
        filter_names(image.stream.entries) is None,
    ensures
        p == bitmap(image.stream.content, image.width, image.height),
{
}

/// An image gives the same pixels each time, where it is settled what comes out of its filters.
pub proof fn law_same_pixels(
    image: ImageModel,
    p: (ImageKind, Seq<u8>),
    q: (ImageKind, Seq<u8>),
)
    requires
        settled(image.stream),
        shows(image, p),
        shows(image, q),
    ensures
        p == q,
{
}

proof fn lemma_different_subtypes()
    ensures
        "Image".spec_bytes() != "Form".spec_bytes(),
{
    reveal_strlit("Image");
    reveal_strlit("Form");
    vstd::utf8::encode_utf8_decode_utf8("Image"@);
    vstd::utf8::encode_utf8_decode_utf8("Form"@);
    assert("Image"@.len() != "Form"@.len());
}

/// No stream holds both an image and a form.
pub proof fn law_image_or_form(stream: StreamValue)
    ensures
        !(image_in(stream) is Some && is_subtype(stream, "Form".spec_bytes())),
{
    lemma_different_subtypes();
}

/// The lengths of an image are those that are stored, where these are 32-bit integers, and it
/// has eight bits for each color of a pixel.
pub proof fn law_image_size(stream: StreamValue)
    requires
        image_in(stream) is Some,
        integer_under(stream.entries, "Width".spec_bytes(), 0) <= u32::MAX,
        integer_under(stream.entries, "Height".spec_bytes(), 0) <= u32::MAX,
    ensures
        image_in(stream)->0.width == integer_under(stream.entries, "Width".spec_bytes(), 0),
        image_in(stream)->0.height == integer_under(stream.entries, "Height".spec_bytes(), 0),
        image_in(stream)->0.width > 0,
        image_in(stream)->0.height > 0,
        integer_under(stream.entries, "BitsPerComponent".spec_bytes(), 8) == 8,
{
}

/// An image is found under its name, unless a later one has the same name.
pub proof fn law_image_found(streams: Seq<(Seq<char>, StreamValue)>, i: int)
    requires
        0 <= i < streams.len(),
        image_in(streams[i].1) is Some,
        forall|j: int|
            i < j < streams.len() && #[trigger] streams[j].0 == streams[i].0 ==> image_in(
                streams[j].1,
            ) is None,
    ensures
        images_among(streams).contains_key(streams[i].0),
        images_among(streams)[streams[i].0] == image_in(streams[i].1)->0,
    decreases streams.len(),
{
    let last = streams.len() - 1;
    if i < last {
        let before = streams.drop_last();
        assert(before[i] == streams[i]);
        assert forall|j: int|
            i < j < before.len() && #[trigger] before[j].0 == before[i].0 implies image_in(
            before[j].1,
        ) is None by {
            assert(streams[j] == before[j]);
        }
        law_image_found(before, i);
        assert(streams[last] == streams.last());
    }
}

/// What is found under a name is an image that a stream of that name holds.
pub proof fn law_found_image(streams: Seq<(Seq<char>, StreamValue)>, name: Seq<char>)
    requires
        images_among(streams).contains_key(name),
    ensures
        exists|i: int|
            0 <= i < streams.len() && (#[trigger] streams[i]).0 == name && image_in(streams[i].1)
                == Some(images_among(streams)[name]),
    decreases streams.len(),
{
    let before = streams.drop_last();
    if image_in(streams.last().1) is Some && streams.last().0 == name {
        assert(streams[streams.len() - 1] == streams.last());
    } else {
        law_found_image(before, name);
        let i = choose|i: int|
            0 <= i < before.len() && (#[trigger] before[i]).0 == name && image_in(before[i].1)
                == Some(images_among(before)[name]);
        assert(streams[i] == before[i]);
    }
}

/// Whether forms stand within each other at most `levels` deep.
pub open spec fn nested_within(forms: Seq<(String, FormX)>, levels: nat) -> bool
    decreases levels,
{
    if levels == 0 {
        forms.len() == 0
    } else {
        forall|i: int|
            0 <= i < forms.len() ==> nested_within(
                (#[trigger] forms[i]).1.forms@,
                (levels - 1) as nat,
            )
    }
}

proof fn lemma_last_form(
    streams: Seq<(Seq<char>, StreamValue)>,
    contents: Seq<Option<Seq<u8>>>,
    i: int,
) -> (last: int)
    requires
        form_at(streams, contents, i),
    ensures
        last_form_at(streams, contents, last),
        streams[last].0 == streams[i].0,
    decreases streams.len() - i,
{
    if last_form_at(streams, contents, i) {
        i
    } else {
        let j = choose|j: int|
            i < j < streams.len() && #[trigger] form_at(streams, contents, j) && streams[j].0
                == streams[i].0;
        lemma_last_form(streams, contents, j)
    }
}

/// Forms stand within each other no deeper than they may, also where they name each other in a
/// circle.
pub proof fn law_depth_limited(
    objects: Map<lopdf::ObjectId, PdfValue>,
    resources: Seq<(Seq<u8>, PdfValue)>,
    depth: nat,
    forms: Seq<(String, FormX)>,
)
    requires
        depth <= MAX_FORM_DEPTH,
        are_forms(objects, resources, depth, forms),
    ensures
        nested_within(forms, (MAX_FORM_DEPTH - depth) as nat),
    decreases MAX_FORM_DEPTH - depth,
{
    if depth < MAX_FORM_DEPTH {
        let streams = external_streams(objects, resources);
        let contents = choose|contents: Seq<Option<Seq<u8>>>| #[trigger]
            forms_unpack(streams, contents) && are_forms_among(
                objects,
                streams,
                contents,
                resources,
                depth,
                forms,
            );
        assert forall|k: int| 0 <= k < forms.len() implies nested_within(
            (#[trigger] forms[k]).1.forms@,
            (MAX_FORM_DEPTH - depth - 1) as nat,
        ) by {
            let name = forms[k].0@;
            lemma_at(forms, k);
            let i = choose|i: int| form_at(streams, contents, i) && streams[i].0 == name;
            let last = lemma_last_form(streams, contents, i);
            law_depth_limited(
                objects,
                form_resources(objects, streams[last].1, resources),
                depth + 1,
                forms[k].1.forms@,
            );
        }
    }
}

/// A form whose filters give `content` is found under its name, unless a later one has the same
/// name.
pub proof fn law_form_found(
    objects: Map<lopdf::ObjectId, PdfValue>,
    resources: Seq<(Seq<u8>, PdfValue)>,
    depth: nat,
    forms: Seq<(String, FormX)>,
    i: int,
    content: Seq<u8>,
)
    requires
        depth < MAX_FORM_DEPTH,
        are_forms(objects, resources, depth, forms),
        0 <= i < external_streams(objects, resources).len(),
        is_subtype(external_streams(objects, resources)[i].1, "Form".spec_bytes()),
        forall|c: Option<Seq<u8>>| #[trigger]
            unpacks(external_streams(objects, resources)[i].1, c) ==> c == Some(content),
        forall|j: int|
            i < j < external_streams(objects, resources).len() && is_subtype(
                (#[trigger] external_streams(objects, resources)[j]).1,
                "Form".spec_bytes(),
            ) ==> external_streams(objects, resources)[j].0 != external_streams(
                objects,
                resources,
            )[i].0,
    ensures
        by_name(forms).contains_key(external_streams(objects, resources)[i].0),
        is_form(
            objects,
            external_streams(objects, resources)[i].1,
            content,
            resources,
            depth,
            by_name(forms)[external_streams(objects, resources)[i].0],
        ),
{
    let streams = external_streams(objects, resources);
    let contents = choose|contents: Seq<Option<Seq<u8>>>| #[trigger]
        forms_unpack(streams, contents) && are_forms_among(
            objects,
            streams,
            contents,
            resources,
            depth,
            forms,
        );
    assert(unpacks(streams[i].1, contents[i]));
    assert(form_at(streams, contents, i));
    assert(last_form_at(streams, contents, i));
}

/// What is found under a name is a form that a stream of that name holds.
pub proof fn law_found_form(
    objects: Map<lopdf::ObjectId, PdfValue>,
    resources: Seq<(Seq<u8>, PdfValue)>,
    depth: nat,
    forms: Seq<(String, FormX)>,
    name: Seq<char>,
)
    requires
        are_forms(objects, resources, depth, forms),
        by_name(forms).contains_key(name),
    ensures
        exists|i: int, content: Seq<u8>|
            {
                let streams = external_streams(objects, resources);
                &&& 0 <= i < streams.len()
                &&& streams[i].0 == name
                &&& is_subtype(streams[i].1, "Form".spec_bytes())
                &&& unpacks(streams[i].1, Some(content))
                &&& #[trigger] is_form(
                    objects,
                    external_streams(objects, resources)[i].1,
                    content,
                    resources,
                    depth,
                    by_name(forms)[name],
                )
            },
{
    let streams = external_streams(objects, resources);
    assert(depth < MAX_FORM_DEPTH) by {
        if depth >= MAX_FORM_DEPTH {
            let k = choose|k: int| crate::names::is_at(forms, name, k);
            assert(0 <= k < forms.len());
        }
    }
    let contents = choose|contents: Seq<Option<Seq<u8>>>| #[trigger]
        forms_unpack(streams, contents) && are_forms_among(
            objects,
            streams,
            contents,
            resources,
            depth,
            forms,
        );
    let i = choose|i: int| form_at(streams, contents, i) && streams[i].0 == name;
    let last = lemma_last_form(streams, contents, i);
    assert(unpacks(streams[last].1, contents[last]));
    assert(is_form(
        objects,
        external_streams(objects, resources)[last].1,
        contents[last]->0,
        resources,
        depth,
        by_name(forms)[name],
    ));
}

/// A stream under a key is listed with the text of that key, which is what the key encodes where
/// it is text.
pub proof fn law_stream_listed(
    objects: Map<lopdf::ObjectId, PdfValue>,
    entries: Seq<(Seq<u8>, PdfValue)>,
    k: int,
)
    requires
        0 <= k < entries.len(),
        resolved(objects, entries[k].1) matches Some(v) && v is Stream,
    ensures
        exists|i: int|
            0 <= i < streams_among(objects, entries).len() && #[trigger] streams_among(
                objects,
                entries,
            )[i] == (name_text(entries[k].0), resolved(objects, entries[k].1)->0->Stream_0),
    decreases entries.len(),
{
    let streams = streams_among(objects, entries);
    let before = streams_among(objects, entries.drop_last());
    let listed = (name_text(entries[k].0), resolved(objects, entries[k].1)->0->Stream_0);
    if k == entries.len() - 1 {
        assert(streams[streams.len() - 1] == listed);
    } else {
        law_stream_listed(objects, entries.drop_last(), k);
        let i = choose|i: int| 0 <= i < before.len() && #[trigger] before[i] == listed;
        assert(streams[i] == listed);
    }
}

/// Whether it is settled what comes out of the filters of a stream.
pub open spec fn settled(stream: StreamValue) -> bool {
    forall|a: Option<Seq<u8>>, b: Option<Seq<u8>>| #[trigger]
        unpacks(stream, a) && #[trigger] unpacks(stream, b) ==> a == b
}

/// It is settled what comes out of the filters of a stream whose rows are not too long, or one of
/// whose filters cannot be applied.
pub proof fn law_settled(stream: StreamValue)
    requires
        rows_fit(stream.entries) || !all_can_be_applied(stream.entries),
    ensures
        settled(stream),
{
    assert forall|a: Option<Seq<u8>>, b: Option<Seq<u8>>| #[trigger]
        unpacks(stream, a) && #[trigger] unpacks(stream, b) implies a == b by {
        if rows_fit(stream.entries) {
            assert(set![b].contains(a));
        }
    }
}

/// Whether it is settled what comes out of the filters of the forms that resources name, and of
/// those within them, from the given depth on.
pub open spec fn forms_settled(
    objects: Map<lopdf::ObjectId, PdfValue>,
    resources: Seq<(Seq<u8>, PdfValue)>,
    depth: nat,
) -> bool
    decreases MAX_FORM_DEPTH - depth,
{
    depth < MAX_FORM_DEPTH ==> forall|i: int|
        #![trigger external_streams(objects, resources)[i]]
        0 <= i < external_streams(objects, resources).len() && is_subtype(
            external_streams(objects, resources)[i].1,
            "Form".spec_bytes(),
        ) ==> settled(external_streams(objects, resources)[i].1) && forms_settled(
            objects,
            form_resources(objects, external_streams(objects, resources)[i].1, resources),
            depth + 1,
        )
}

/// Whether two forms are the same, but for the forms within them.
pub open spec fn same_form(a: FormX, b: FormX) -> bool {
    &&& a.content@ == b.content@
    &&& a.matrix == b.matrix
    &&& dictionary_entries(a.resources) == dictionary_entries(b.resources)
    &&& depicted(a.images@) == depicted(b.images@)
}

/// Whether the forms `b` are the forms `a`, with those left out that stand more than `levels`
/// deep.
pub open spec fn cut_off(
    a: Seq<(String, FormX)>,
    b: Seq<(String, FormX)>,
    levels: nat,
) -> bool
    decreases levels,
{
    if levels == 0 {
        b.len() == 0
    } else {
        &&& by_name(a).dom() == by_name(b).dom()
        &&& forall|name: Seq<char>| #[trigger]
            by_name(b).contains_key(name) ==> same_form(by_name(a)[name], by_name(b)[name])
                && cut_off(
                by_name(a)[name].forms@,
                by_name(b)[name].forms@,
                (levels - 1) as nat,
            )
    }
}

/// The depth from which forms are resolved only limits how deep they may stand: where it is
/// settled what comes out of their filters, a greater depth gives the same forms, cut off
/// earlier.
pub proof fn law_depth_cuts_off(
    objects: Map<lopdf::ObjectId, PdfValue>,
    resources: Seq<(Seq<u8>, PdfValue)>,
    depth: nat,
    deeper: nat,
    a: Seq<(String, FormX)>,
    b: Seq<(String, FormX)>,
)
    requires
        depth <= deeper <= MAX_FORM_DEPTH,
        forms_settled(objects, resources, depth),
        are_forms(objects, resources, depth, a),
        are_forms(objects, resources, deeper, b),
    ensures
        cut_off(a, b, (MAX_FORM_DEPTH - deeper) as nat),
    decreases MAX_FORM_DEPTH - deeper,
{
    if deeper < MAX_FORM_DEPTH {
        let streams = external_streams(objects, resources);
        let x = choose|contents: Seq<Option<Seq<u8>>>| #[trigger]
            forms_unpack(streams, contents) && are_forms_among(
                objects,
                streams,
                contents,
                resources,
                depth,
                a,
            );
        let y = choose|contents: Seq<Option<Seq<u8>>>| #[trigger]
            forms_unpack(streams, contents) && are_forms_among(
                objects,
                streams,
                contents,
                resources,
                deeper,
                b,
            );
        assert forall|i: int| #[trigger] form_at(streams, x, i) == form_at(streams, y, i) && (
        form_at(streams, x, i) ==> x[i] == y[i]) by {
            if 0 <= i < streams.len() && is_subtype(streams[i].1, "Form".spec_bytes()) {
                assert(settled(external_streams(objects, resources)[i].1));
                assert(unpacks(streams[i].1, x[i]));
                assert(unpacks(streams[i].1, y[i]));
            }
        }
        assert forall|name: Seq<char>|
            by_name(a).contains_key(name) == by_name(b).contains_key(name) by {
            if by_name(a).contains_key(name) {
                let i = choose|i: int| form_at(streams, x, i) && streams[i].0 == name;
                assert(form_at(streams, y, i) && streams[i].0 == name);
            }
            if by_name(b).contains_key(name) {
                let i = choose|i: int| form_at(streams, y, i) && streams[i].0 == name;
                assert(form_at(streams, x, i) && streams[i].0 == name);
            }
        }
        assert(by_name(a).dom() =~= by_name(b).dom());
        assert forall|name: Seq<char>| #[trigger] by_name(b).contains_key(name) implies same_form(
            by_name(a)[name],
            by_name(b)[name],
        ) && cut_off(
            by_name(a)[name].forms@,
            by_name(b)[name].forms@,
            (MAX_FORM_DEPTH - deeper - 1) as nat,
        ) by {
            let i = choose|i: int| form_at(streams, y, i) && streams[i].0 == name;
            let last = lemma_last_form(streams, y, i);
            assert(form_at(streams, x, last));
            assert forall|j: int|
                last < j < streams.len() && #[trigger] form_at(streams, x, j) implies streams[j].0
                != streams[last].0 by {
                assert(form_at(streams, y, j));
            }
            assert(last_form_at(streams, x, last));
            let within = form_resources(objects, streams[last].1, resources);
            assert(forms_settled(
                objects,
                form_resources(objects, external_streams(objects, resources)[last].1, resources),
                depth + 1,
            ));
            law_depth_cuts_off(
                objects,
                within,
                depth + 1,
                deeper + 1,
                by_name(a)[name].forms@,
                by_name(b)[name].forms@,
            );
        }
    }
}

/// A stream of the subtype of images that has a width and a height above zero holds an image,
/// where eight bits are given for each color of a pixel, or no count of bits is. No other entry
/// of the stream matters.
pub proof fn law_image_held(stream: StreamValue, w: i64, h: i64)
    requires
        entry(stream.entries, "Subtype".spec_bytes()) == Some(
            PdfValue::Name("Image".spec_bytes()),
        ),
        entry(stream.entries, "Width".spec_bytes()) == Some(PdfValue::Integer(w)),
        entry(stream.entries, "Height".spec_bytes()) == Some(PdfValue::Integer(h)),
        w > 0,
        h > 0,
        entry(stream.entries, "BitsPerComponent".spec_bytes()) matches Some(PdfValue::Integer(n))
            ==> n == 8,
    ensures
        image_in(stream) is Some,
        image_in(stream)->0.width == w as int % 0x1_0000_0000,
        image_in(stream)->0.height == h as int % 0x1_0000_0000,
        image_in(stream)->0.stream == stream,
{
}

/// A stream of another subtype holds no image, nor does one without a width or a height above
/// zero, nor one with another count of bits.
pub proof fn law_no_image_held(stream: StreamValue)
    requires
        ({
            ||| entry(stream.entries, "Subtype".spec_bytes()) != Some(
                PdfValue::Name("Image".spec_bytes()),
            )
            ||| !(entry(stream.entries, "Width".spec_bytes()) matches Some(PdfValue::Integer(n))
                && n > 0)
            ||| !(entry(stream.entries, "Height".spec_bytes()) matches Some(PdfValue::Integer(n))
                && n > 0)
            ||| entry(stream.entries, "BitsPerComponent".spec_bytes()) matches Some(
                PdfValue::Integer(n),
            ) && n != 8
        }),
    ensures
        image_in(stream) is None,
{
}

/// A form whose own resources are a dictionary has exactly the entries of that dictionary.
pub proof fn law_own_resources(
    objects: Map<lopdf::ObjectId, PdfValue>,
    stream: StreamValue,
    around: Seq<(Seq<u8>, PdfValue)>,
    v: PdfValue,
    own: Seq<(Seq<u8>, PdfValue)>,
)
    requires
        entry(stream.entries, "Resources".spec_bytes()) == Some(v),
        resolved(objects, v) == Some(PdfValue::Dictionary(own)),
    ensures
        form_resources(objects, stream, around) == own,
{
}

/// A form without resources of its own, or whose resources are no dictionary, has those of what it
/// stands in.
pub proof fn law_resources_around(
    objects: Map<lopdf::ObjectId, PdfValue>,
    stream: StreamValue,
    around: Seq<(Seq<u8>, PdfValue)>,
)
    requires
        entry(stream.entries, "Resources".spec_bytes()) matches Some(v) ==> !(resolved(objects, v)
            matches Some(d) && d is Dictionary),
    ensures
        form_resources(objects, stream, around) == around,
{
}

/// The resources of a page are the dictionary under that key, and there are none where the page
/// is no dictionary or has none.
pub proof fn law_page_resources(
    objects: Map<lopdf::ObjectId, PdfValue>,
    page_id: lopdf::ObjectId,
)
    ensures
        objects.contains_key(page_id) ==> (resolved(objects, objects[page_id]) matches Some(
            PdfValue::Dictionary(page),
        ) ==> (entry(page, "Resources".spec_bytes()) matches Some(v) ==> (resolved(objects, v)
            matches Some(PdfValue::Dictionary(found)) ==> resources_of(objects, page_id) == Some(
            found,
        )))),
        resources_of(objects, page_id) is Some ==> {
            &&& objects.contains_key(page_id)
            &&& resolved(objects, objects[page_id]) matches Some(PdfValue::Dictionary(page))
            &&& entry(page, "Resources".spec_bytes()) matches Some(v)
            &&& resolved(objects, v) == Some(
                PdfValue::Dictionary(resources_of(objects, page_id)->0),
            )
        },
{
}

/// The streams that resources name are those of the dictionary of external objects, and there are
/// none where there is no such dictionary.
pub proof fn law_external_streams(
    objects: Map<lopdf::ObjectId, PdfValue>,
    resources: Seq<(Seq<u8>, PdfValue)>,
)
    ensures
        match entry(resources, "XObject".spec_bytes()) {
            Some(v) => match resolved(objects, v) {
                Some(PdfValue::Dictionary(named)) => external_streams(objects, resources)
                    == streams_among(objects, named),
                _ => external_streams(objects, resources).len() == 0,
            },
            None => external_streams(objects, resources).len() == 0,
        },
{
}

/// A dictionary of one entry lists its stream, under the text that its key encodes, or under that
/// with replacement characters where it encodes none. What is no stream is not listed.
pub proof fn law_one_stream(
    objects: Map<lopdf::ObjectId, PdfValue>,
    key: Seq<u8>,
    v: PdfValue,
)
    ensures
        match resolved(objects, v) {
            Some(PdfValue::Stream(s)) => streams_among(objects, seq![(key, v)]) == seq![
                (
                    if valid_utf8(key) {
                        decode_utf8(key)
                    } else {
                        lossy_text(key)
                    },
                    s,
                ),
            ],
            _ => streams_among(objects, seq![(key, v)]).len() == 0,
        },
{
    let entries = seq![(key, v)];
    assert(entries.drop_last() =~= Seq::empty());
    assert(streams_among(objects, entries.drop_last()) =~= Seq::empty());
    assert(entries.last() == (key, v));
    assert(streams_among(objects, entries) =~= match resolved(objects, v) {
        Some(PdfValue::Stream(s)) => seq![(name_text(key), s)],
        _ => Seq::empty(),
    });
}

/// The streams of a dictionary are those of its first entries, and then those of the others.
pub proof fn law_streams_in_order(
    objects: Map<lopdf::ObjectId, PdfValue>,
    a: Seq<(Seq<u8>, PdfValue)>,
    b: Seq<(Seq<u8>, PdfValue)>,
)
    ensures
        streams_among(objects, a + b) == streams_among(objects, a) + streams_among(objects, b),
    decreases b.len(),
{
    let (x, y) = (streams_among(objects, a), streams_among(objects, b));
    if b.len() == 0 {
        assert(a + b =~= a);
        assert(x + y =~= x);
    } else {
        assert((a + b).drop_last() =~= a + b.drop_last());
        assert((a + b).last() == b.last());
        law_streams_in_order(objects, a, b.drop_last());
        assert(streams_among(objects, a + b) =~= x + y);
    }
}

/// The map of a form is the one whose six coefficients are given, each a number or zero, and that
/// which keeps each point where not six are given.
pub proof fn law_matrix(entries: Seq<(Seq<u8>, PdfValue)>, list: Seq<PdfValue>)
    ensures
        entry(entries, "Matrix".spec_bytes()) == Some(PdfValue::Array(list)) && list.len() == 6
            ==> {
            let m = matrix_of(entries);
            let coefficients = seq![m.a, m.b, m.c, m.d, m.e, m.f];
            forall|i: int|
                0 <= i < 6 ==> #[trigger] coefficients[i] == match list[i] {
                    PdfValue::Integer(n) => Number::Integer(n),
                    PdfValue::Real(bits) => Number::Real(bits),
                    _ => Number::Integer(0),
                }
        },
        !(entry(entries, "Matrix".spec_bytes()) matches Some(PdfValue::Array(other))
            && other.len() == 6) ==> matrix_of(entries) == (Matrix {
            a: Number::Integer(1),
            b: Number::Integer(0),
            c: Number::Integer(0),
            d: Number::Integer(1),
            e: Number::Integer(0),
            f: Number::Integer(0),
        }),
{
    if entry(entries, "Matrix".spec_bytes()) == Some(PdfValue::Array(list)) && list.len() == 6 {
        let m = matrix_of(entries);
        let coefficients = seq![m.a, m.b, m.c, m.d, m.e, m.f];
        assert forall|i: int| 0 <= i < 6 implies #[trigger] coefficients[i] == match list[i] {
            PdfValue::Integer(n) => Number::Integer(n),
            PdfValue::Real(bits) => Number::Real(bits),
            _ => Number::Integer(0),
        } by {
            assert(i == 0 || i == 1 || i == 2 || i == 3 || i == 4 || i == 5);
        }
    }
}

/// What a form holds: what comes out of the filters of its stream, the map of its stream, its
/// resources, all images among these, and all forms among these, down to the greatest depth.
pub proof fn law_form_parts(
    objects: Map<lopdf::ObjectId, PdfValue>,
    stream: StreamValue,
    content: Seq<u8>,
    around: Seq<(Seq<u8>, PdfValue)>,
    depth: nat,
    form: FormX,
)
    requires
        is_form(objects, stream, content, around, depth, form),
    ensures
        form.content@ == content,
        form.matrix == matrix_of(stream.entries),
        dictionary_entries(form.resources) == form_resources(objects, stream, around),
        distinct(form.images@),
        depicted(form.images@) == images_among(
            external_streams(objects, dictionary_entries(form.resources)),
        ),
        depth < 4 ==> are_forms(
            objects,
            dictionary_entries(form.resources),
            depth + 1,
            form.forms@,
        ),
{
}

/// From the greatest depth on there are no forms, and a list of forms has no name twice.
pub proof fn law_forms_end(
    objects: Map<lopdf::ObjectId, PdfValue>,
    resources: Seq<(Seq<u8>, PdfValue)>,
    depth: nat,
    forms: Seq<(String, FormX)>,
)
    requires
        are_forms(objects, resources, depth, forms),
    ensures
        depth >= 4 ==> forms.len() == 0,
        distinct(forms),
{
}

/// The bytes of a bitmap give colors where there are three for each pixel, gray where there is
/// one, and nothing otherwise.
pub proof fn law_bitmap(pixels: Seq<u8>, width: u32, height: u32)
    ensures
        width * height > 0 && pixels.len() == 3 * (width * height) ==> bitmap(pixels, width, height)
            == (ImageKind::Rgb8, pixels),
        width * height > 0 && pixels.len() == width * height ==> bitmap(pixels, width, height) == (
            ImageKind::Gray8,
            pixels,
        ),
        width * height == 0 || (pixels.len() != 3 * (width * height) && pixels.len() != width
            * height) ==> bitmap(pixels, width, height) == (
            ImageKind::Unsupported,
            Seq::<u8>::empty(),
        ),
{
    assert(width * height >= 0) by (nonlinear_arith);
}

/// What an image shows: a stored JPEG file where the filter for it stands alone, nothing where it
/// comes behind others, and otherwise the bitmap that comes out of the filters, if one does.
pub proof fn law_image_shown(image: ImageModel, p: (ImageKind, Seq<u8>)) -> (unpacked: Option<
    Seq<u8>,
>)
    requires
        shows(image, p),
    ensures
        filter_names(image.stream.entries) == Some(seq!["DCTDecode".spec_bytes()]) ==> p == (
            ImageKind::Jpeg,
            image.stream.content,
        ),
        filter_names(image.stream.entries) matches Some(names) ==> names.len() > 1 && names.last()
            == "DCTDecode".spec_bytes() ==> p == (ImageKind::Unsupported, Seq::<u8>::empty()),
        !(filter_names(image.stream.entries) matches Some(names) && names.len() > 0 && names.last()
            == "DCTDecode".spec_bytes()) ==> {
            &&& unpacks(image.stream, unpacked)
            &&& p == match unpacked {
                Some(pixels) => bitmap(pixels, image.width, image.height),
                None => (ImageKind::Unsupported, Seq::<u8>::empty()),
            }
        },
{
    if filter_names(image.stream.entries) == Some(seq!["DCTDecode".spec_bytes()]) {
        assert(seq!["DCTDecode".spec_bytes()].last() == "DCTDecode".spec_bytes());
    }
    if ends_in_jpeg(image.stream) {
        None
    } else {
        choose|unpacked: Option<Seq<u8>>| #[trigger]
            unpacks(image.stream, unpacked) && p == (match unpacked {
                Some(pixels) => bitmap(pixels, image.width, image.height),
                None => (ImageKind::Unsupported, Seq::empty()),
            })
    }
}

/// What comes out of the filters of a stream is something that may, and all that may where its
/// rows are not too long.
pub proof fn law_unpacked(stream: StreamValue, bytes: Option<Seq<u8>>)
    requires
        unpacks(stream, bytes),
    ensures
        unfiltered(stream.entries, stream.content).contains(bytes),
        rows_fit(stream.entries) ==> unfiltered(stream.entries, stream.content) == set![bytes],
        filter_names(stream.entries) is None ==> bytes == Some(stream.content),
        !all_can_be_applied(stream.entries) ==> bytes is None,
{
}

/// What named images hold: each under its name, with its lengths and what its stream holds.
pub proof fn law_depicted(images: Seq<(String, XImage)>, name: Seq<char>)
    requires
        distinct(images),
    ensures
        forall|i: int|
            0 <= i < images.len() && (#[trigger] images[i]).0@ == name ==> {
                &&& depicted(images).contains_key(name)
                &&& depicted(images)[name].width == images[i].1.width
                &&& depicted(images)[name].height == images[i].1.height
                &&& depicted(images)[name].stream == stream_value(images[i].1.stream)
            },
        (forall|i: int| 0 <= i < images.len() ==> (#[trigger] images[i]).0@ != name)
            ==> !depicted(images).contains_key(name),
{
    law_by_name(images, name);
}

/// A stream is of a subtype where its entry says so, and no other entry matters.
pub proof fn law_subtype(stream: StreamValue, subtype: Seq<u8>)
    ensures
        is_subtype(stream, subtype) <==> entry(stream.entries, "Subtype".spec_bytes()) == Some(
            PdfValue::Name(subtype),
        ),
{
}

/// What a list of streams holds: each name and what is under it, in order.
pub proof fn law_held(streams: Seq<(String, lopdf::Stream)>, i: int)
    ensures
        held(streams).len() == streams.len(),
        0 <= i < streams.len() ==> held(streams)[i] == (
            streams[i].0@,
            stream_value(streams[i].1),
        ),
{
}

/// An image holds what its fields hold.
pub proof fn law_image_fields(image: XImage)
    ensures
        image@.width == image.width,
        image@.height == image.height,
        image@.stream == stream_value(image.stream),
{
}

/// The map that keeps each point has ones on its diagonal, and zeros.
pub proof fn law_identity()
    ensures
        identity_matrix().a == Number::Integer(1),
        identity_matrix().b == Number::Integer(0),
        identity_matrix().c == Number::Integer(0),
        identity_matrix().d == Number::Integer(1),
        identity_matrix().e == Number::Integer(0),
        identity_matrix().f == Number::Integer(0),
{
}

/// Each form that is the last of its name is found with what came out of its filters, unless
/// nothing came out of them.
pub proof fn law_form_found_or_unreadable(
    objects: Map<lopdf::ObjectId, PdfValue>,
    resources: Seq<(Seq<u8>, PdfValue)>,
    depth: nat,
    forms: Seq<(String, FormX)>,
    i: int,
) -> (content: Option<Seq<u8>>)
    requires
        depth < 4,
        are_forms(objects, resources, depth, forms),
        0 <= i < external_streams(objects, resources).len(),
        entry(
            external_streams(objects, resources)[i].1.entries,
            "Subtype".spec_bytes(),
        ) == Some(PdfValue::Name("Form".spec_bytes())),
        forall|j: int|
            i < j < external_streams(objects, resources).len() ==> (
            #[trigger] external_streams(objects, resources)[j]).0 != external_streams(
                objects,
                resources,
            )[i].0,
    ensures
        unpacks(external_streams(objects, resources)[i].1, content),
        content is Some ==> by_name(forms).contains_key(external_streams(objects, resources)[i].0),
        content is Some ==> is_form(
            objects,
            external_streams(objects, resources)[i].1,
            content->0,
            resources,
            depth,
            by_name(forms)[external_streams(objects, resources)[i].0],
        ),
{
    let streams = external_streams(objects, resources);
    let contents = choose|contents: Seq<Option<Seq<u8>>>| #[trigger]
        forms_unpack(streams, contents) && are_forms_among(
            objects,
            streams,
            contents,
            resources,
            depth,
            forms,
        );
    assert(unpacks(streams[i].1, contents[i]));
    if contents[i] is Some {
        assert(form_at(streams, contents, i));
        assert(last_form_at(streams, contents, i));
    }
    contents[i]
}

} // verus!
