use docparse::images::{
    FormX, ImageKind, MAX_FORM_DEPTH, Matrix, Number, XImage, build_forms_from_resources,
    build_page_forms, build_page_images, decode_bitmap,
};
use docparse::names::find;
use lopdf::{Dictionary, Document, Object, ObjectId, Stream};

fn name(n: &str) -> Object {
    Object::Name(n.as_bytes().to_vec())
}

fn dict(entries: &[(&str, Object)]) -> Dictionary {
    let mut d = Dictionary::new();
    for (k, v) in entries {
        d.set(*k, v.clone());
    }
    d
}

fn image(entries: &[(&str, Object)], content: &[u8]) -> Stream {
    let mut d = dict(&[
        ("Subtype", name("Image")),
        ("Width", Object::Integer(2)),
        ("Height", Object::Integer(3)),
        ("BitsPerComponent", Object::Integer(8)),
    ]);
    for (k, v) in entries {
        d.set(*k, v.clone());
    }
    Stream::new(d, content.to_vec())
}

fn form(entries: &[(&str, Object)], content: &[u8]) -> Stream {
    let mut d = dict(&[("Subtype", name("Form"))]);
    for (k, v) in entries {
        d.set(*k, v.clone());
    }
    Stream::new(d, content.to_vec())
}

fn resources(xobjects: &[(&str, Object)]) -> Dictionary {
    dict(&[("XObject", Object::Dictionary(dict(xobjects)))])
}

fn page(doc: &mut Document, xobjects: &[(&str, Object)]) -> ObjectId {
    let r = resources(xobjects);
    doc.add_object(dict(&[
        ("Type", name("Page")),
        ("Resources", Object::Dictionary(r)),
    ]))
}

fn stored(width: u32, height: u32, entries: &[(&str, Object)], content: &[u8]) -> XImage {
    XImage {
        width,
        height,
        stream: Stream::new(dict(entries), content.to_vec()),
    }
}

fn names<V>(entries: &[(String, V)]) -> Vec<&str> {
    entries.iter().map(|e| e.0.as_str()).collect()
}

#[test]
fn images_are_found_by_name() {
    let mut doc = Document::new();
    let a = doc.add_object(image(&[], &[1; 18]));
    let b = doc.add_object(image(&[("Width", Object::Integer(5))], &[1, 2]));
    let id = page(
        &mut doc,
        &[
            ("ImA", Object::Reference(a)),
            ("ImB", Object::Reference(b)),
            ("Fm", Object::Stream(form(&[], b"q"))),
            ("No", Object::Integer(7)),
        ],
    );
    let images = build_page_images(&doc, id);
    assert_eq!(names(&images), vec!["ImA", "ImB"]);
    let found = find(&images, "ImA").unwrap();
    assert_eq!((found.width, found.height), (2, 3));
    assert_eq!(found.stream.content, vec![1; 18]);
    assert_eq!(find(&images, "ImB").unwrap().width, 5);
    assert!(find(&images, "Fm").is_none());
}

#[test]
fn pages_without_resources_have_nothing() {
    let mut doc = Document::new();
    let bare = doc.add_object(dict(&[("Type", name("Page"))]));
    let odd = doc.add_object(dict(&[("Resources", Object::Integer(1))]));
    let empty = doc.add_object(dict(&[("Resources", Object::Dictionary(dict(&[])))]));
    let lost = doc.add_object(dict(&[("Resources", Object::Reference((999, 0)))]));
    let array = doc.add_object(Object::Array(vec![]));
    for id in [bare, odd, empty, lost, array, (4711, 0)] {
        assert!(build_page_images(&doc, id).is_empty());
        assert!(build_page_forms(&doc, id).is_empty());
    }
}

#[test]
fn references_are_followed() {
    let mut doc = Document::new();
    let stream = doc.add_object(image(&[], &[0; 6]));
    let mut link = stream;
    for _ in 0..5 {
        link = doc.add_object(Object::Reference(link));
    }
    let xobjects = doc.add_object(dict(&[("Im", Object::Reference(link))]));
    let res = doc.add_object(dict(&[("XObject", Object::Reference(xobjects))]));
    let id = doc.add_object(dict(&[("Resources", Object::Reference(res))]));
    let page = doc.add_object(Object::Reference(id));
    assert_eq!(names(&build_page_images(&doc, page)), vec!["Im"]);
    // A circle of references leads nowhere.
    let circle = doc.new_object_id();
    doc.objects.insert(circle, Object::Reference(circle));
    let lost = doc.add_object(dict(&[("Resources", Object::Reference(circle))]));
    assert!(build_page_images(&doc, lost).is_empty());
}

#[test]
fn long_chains_of_references_are_cut_off() {
    let mut doc = Document::new();
    let mut link = doc.add_object(resources(&[("Im", Object::Stream(image(&[], &[])))]));
    for _ in 0..127 {
        link = doc.add_object(Object::Reference(link));
    }
    let page = doc.add_object(dict(&[("Resources", Object::Reference(link))]));
    assert_eq!(build_page_images(&doc, page).len(), 1);
    link = doc.add_object(Object::Reference(link));
    let page = doc.add_object(dict(&[("Resources", Object::Reference(link))]));
    assert!(build_page_images(&doc, page).is_empty());
}

#[test]
fn only_images_of_eight_bits_count() {
    let mut doc = Document::new();
    let mut odd = image(&[], &[]);
    odd.dict.remove(b"Width");
    let mut plain = image(&[], &[]);
    plain.dict.remove(b"BitsPerComponent");
    let id = page(
        &mut doc,
        &[
            ("Bits", Object::Stream(image(&[("BitsPerComponent", Object::Integer(1))], &[]))),
            ("Zero", Object::Stream(image(&[("Width", Object::Integer(0))], &[]))),
            ("Less", Object::Stream(image(&[("Height", Object::Integer(-4))], &[]))),
            ("Real", Object::Stream(image(&[("Height", Object::Real(4.0))], &[]))),
            ("None", Object::Stream(odd)),
            ("Other", Object::Stream(image(&[("Subtype", name("PS"))], &[]))),
            ("Text", Object::Stream(image(&[("Subtype", Object::string_literal("Image"))], &[]))),
            ("Plain", Object::Stream(plain)),
            (
                "Huge",
                Object::Stream(image(&[("Width", Object::Integer(0x1_0000_0007))], &[])),
            ),
        ],
    );
    let images = build_page_images(&doc, id);
    assert_eq!(names(&images), vec!["Plain", "Huge"]);
    assert_eq!(find(&images, "Huge").unwrap().width, 7);
}

#[test]
fn names_that_are_no_text_are_replaced() {
    let mut doc = Document::new();
    let mut xobjects = Dictionary::new();
    xobjects.set(vec![b'A', 0xff], Object::Stream(image(&[], &[1])));
    xobjects.set(vec![b'A', 0xfe], Object::Stream(image(&[], &[2])));
    xobjects.set("\u{e4}".as_bytes().to_vec(), Object::Stream(image(&[], &[3])));
    let id = doc.add_object(dict(&[(
        "Resources",
        Object::Dictionary(dict(&[("XObject", Object::Dictionary(xobjects))])),
    )]));
    let images = build_page_images(&doc, id);
    assert_eq!(names(&images), vec!["A\u{fffd}", "\u{e4}"]);
    assert_eq!(find(&images, "A\u{fffd}").unwrap().stream.content, vec![2]);
    assert_eq!(find(&images, "\u{e4}").unwrap().stream.content, vec![3]);
}

#[test]
fn jpeg_files_are_handed_on() {
    let x = stored(9, 9, &[("Filter", name("DCTDecode"))], b"jpeg");
    assert_eq!(x.decode(), (ImageKind::Jpeg, b"jpeg".to_vec()));
    let list = Object::Array(vec![name("DCTDecode")]);
    let x = stored(0, 0, &[("Filter", list)], b"jpeg");
    assert_eq!(x.decode(), (ImageKind::Jpeg, b"jpeg".to_vec()));
}

#[test]
fn jpeg_files_behind_other_filters_are_not_supported() {
    let chain = Object::Array(vec![name("ASCIIHexDecode"), name("DCTDecode")]);
    let x = stored(1, 1, &[("Filter", chain)], b"00>");
    assert_eq!(x.decode(), (ImageKind::Unsupported, vec![]));
    let chain = Object::Array(vec![name("DCTDecode"), name("ASCIIHexDecode")]);
    let x = stored(1, 1, &[("Filter", chain)], b"00>");
    assert_eq!(x.decode(), (ImageKind::Unsupported, vec![]));
}

#[test]
fn unknown_filters_are_not_supported() {
    for filter in ["JBIG2Decode", "CCITTFaxDecode", "JPXDecode", "dctdecode"] {
        let x = stored(1, 1, &[("Filter", name(filter))], &[0]);
        assert_eq!(x.decode(), (ImageKind::Unsupported, vec![]), "{filter}");
    }
}

#[test]
fn bitmaps_are_told_apart_by_their_size() {
    let colors: Vec<u8> = (0..18).collect();
    assert_eq!(stored(2, 3, &[], &colors).decode(), (ImageKind::Rgb8, colors.clone()));
    assert_eq!(
        stored(2, 3, &[], &colors[..6]).decode(),
        (ImageKind::Gray8, colors[..6].to_vec())
    );
    for n in [0, 5, 7, 12, 17] {
        assert_eq!(
            stored(2, 3, &[], &colors[..n]).decode(),
            (ImageKind::Unsupported, vec![]),
            "{n}"
        );
    }
    assert_eq!(stored(0, 3, &[], &[]).decode(), (ImageKind::Unsupported, vec![]));
}

#[test]
fn bitmaps_of_any_size_are_told_apart() {
    assert_eq!(decode_bitmap(vec![1, 2, 3], 1, 1), (ImageKind::Rgb8, vec![1, 2, 3]));
    assert_eq!(decode_bitmap(vec![1, 2, 3], 3, 1), (ImageKind::Gray8, vec![1, 2, 3]));
    assert_eq!(decode_bitmap(vec![1, 2, 3], 0, 1), (ImageKind::Unsupported, vec![]));
    assert_eq!(decode_bitmap(vec![], 0, 0), (ImageKind::Unsupported, vec![]));
    assert_eq!(
        decode_bitmap(vec![1], u32::MAX, u32::MAX),
        (ImageKind::Unsupported, vec![])
    );
}

#[test]
fn filters_are_applied() {
    let x = stored(2, 1, &[("Filter", name("ASCIIHexDecode"))], b"0a FF>");
    assert_eq!(x.decode(), (ImageKind::Gray8, vec![10, 255]));
    let x = stored(1, 1, &[("Filter", name("ASCIIHexDecode"))], b"0a zz>");
    assert_eq!(x.decode(), (ImageKind::Unsupported, vec![]));
    let chain = Object::Array(vec![name("ASCIIHexDecode"), name("RunLengthDecode")]);
    let x = stored(2, 2, &[("Filter", chain)], b"f5 07 80>");
    assert_eq!(x.decode(), (ImageKind::Rgb8, vec![7; 12]));
    let mut packed = Stream::new(dict(&[]), vec![9; 300]);
    packed.compress().unwrap();
    assert!(packed.content.len() < 300);
    let x = XImage { width: 10, height: 10, stream: packed };
    assert_eq!(x.decode(), (ImageKind::Rgb8, vec![9; 300]));
}

#[test]
fn filters_that_cannot_be_read_are_skipped() {
    for filter in [Object::Integer(1), Object::Array(vec![name("FlateDecode"), Object::Null])] {
        let x = stored(1, 1, &[("Filter", filter)], &[4]);
        assert_eq!(x.decode(), (ImageKind::Gray8, vec![4]));
    }
    let x = stored(1, 1, &[("Filter", Object::Array(vec![]))], &[4]);
    assert_eq!(x.decode(), (ImageKind::Unsupported, vec![]));
}

#[test]
fn forms_are_found_with_their_contents() {
    let mut doc = Document::new();
    let inner = resources(&[("Im", Object::Stream(image(&[], &[5; 6])))]);
    let f = form(
        &[
            (
                "Matrix",
                Object::Array(vec![
                    Object::Integer(2),
                    Object::Real(0.5),
                    Object::Null,
                    Object::Integer(-1),
                    name("x"),
                    Object::Real(-3.25),
                ]),
            ),
            ("Resources", Object::Dictionary(inner.clone())),
            ("Filter", name("ASCIIHexDecode")),
        ],
        b"71>",
    );
    let id = page(&mut doc, &[("Fm", Object::Stream(f)), ("Im", Object::Stream(image(&[], &[])))]);
    let forms = build_page_forms(&doc, id);
    assert_eq!(names(&forms), vec!["Fm"]);
    let f = find(&forms, "Fm").unwrap();
    assert_eq!(f.content, b"q".to_vec());
    assert_eq!(
        f.matrix,
        Matrix {
            a: Number::Integer(2),
            b: Number::Real(0.5f32.to_bits()),
            c: Number::Integer(0),
            d: Number::Integer(-1),
            e: Number::Integer(0),
            f: Number::Real((-3.25f32).to_bits()),
        }
    );
    assert_eq!(f.resources, inner);
    assert_eq!(names(&f.images), vec!["Im"]);
    assert_eq!(find(&f.images, "Im").unwrap().decode(), (ImageKind::Gray8, vec![5; 6]));
    assert!(f.forms.is_empty());
}

#[test]
fn forms_without_a_matrix_stay_in_place() {
    let mut doc = Document::new();
    let five = Object::Array(vec![Object::Integer(1); 5]);
    let linked = doc.add_object(Object::Array(vec![Object::Integer(1); 6]));
    let id = page(
        &mut doc,
        &[
            ("A", Object::Stream(form(&[], b""))),
            ("B", Object::Stream(form(&[("Matrix", five)], b""))),
            ("C", Object::Stream(form(&[("Matrix", Object::Reference(linked))], b""))),
        ],
    );
    let forms = build_page_forms(&doc, id);
    assert_eq!(forms.len(), 3);
    for (_, f) in &forms {
        assert_eq!(f.matrix, Matrix::identity());
    }
    assert_eq!(Matrix::identity().a, Number::Integer(1));
    assert_eq!(Matrix::identity().b, Number::Integer(0));
}

#[test]
fn forms_that_cannot_be_unpacked_are_left_out() {
    let mut doc = Document::new();
    let id = page(
        &mut doc,
        &[
            ("Bad", Object::Stream(form(&[("Filter", name("JPXDecode"))], b"x"))),
            ("Good", Object::Stream(form(&[], b"x"))),
        ],
    );
    assert_eq!(names(&build_page_forms(&doc, id)), vec!["Good"]);
}

fn levels(forms: &[(String, FormX)]) -> usize {
    forms.iter().map(|(_, f)| 1 + levels(&f.forms)).max().unwrap_or(0)
}

#[test]
fn forms_in_a_circle_come_to_an_end() {
    let mut doc = Document::new();
    let a = doc.new_object_id();
    let own = resources(&[("Again", Object::Reference(a))]);
    doc.objects.insert(
        a,
        Object::Stream(form(&[("Resources", Object::Dictionary(own))], b"/Again Do")),
    );
    let id = page(&mut doc, &[("First", Object::Reference(a))]);
    let forms = build_page_forms(&doc, id);
    assert_eq!(names(&forms), vec!["First"]);
    assert_eq!(levels(&forms), MAX_FORM_DEPTH);
    assert_eq!(MAX_FORM_DEPTH, 4);
}

#[test]
fn forms_fall_back_to_the_resources_around_them() {
    let mut doc = Document::new();
    let id = page(
        &mut doc,
        &[
            ("Fm", Object::Stream(form(&[("Resources", Object::Integer(3))], b""))),
            ("Im", Object::Stream(image(&[], &[]))),
        ],
    );
    let forms = build_page_forms(&doc, id);
    let f = find(&forms, "Fm").unwrap();
    assert_eq!(names(&f.images), vec!["Im"]);
    assert_eq!(names(&f.forms), vec!["Fm"]);
    assert_eq!(levels(&forms), MAX_FORM_DEPTH);
    assert!(f.resources.get(b"XObject").is_ok());
}

#[test]
fn later_forms_replace_earlier_ones() {
    let mut doc = Document::new();
    let mut xobjects = Dictionary::new();
    xobjects.set(vec![0xff], Object::Stream(form(&[], b"one")));
    xobjects.set(vec![0xfe], Object::Stream(form(&[], b"two")));
    xobjects.set(vec![0xfd], Object::Stream(form(&[("Filter", name("X"))], b"three")));
    let id = doc.add_object(dict(&[(
        "Resources",
        Object::Dictionary(dict(&[("XObject", Object::Dictionary(xobjects))])),
    )]));
    let forms = build_page_forms(&doc, id);
    assert_eq!(names(&forms), vec!["\u{fffd}"]);
    assert_eq!(forms[0].1.content, b"two".to_vec());
}

#[test]
fn wide_rows_without_a_predictor_are_unpacked() {
    let wide = dict(&[("Columns", Object::Integer(400_000_000))]);
    let mut packed = Stream::new(dict(&[]), vec![9; 300]);
    packed.compress().unwrap();
    packed.dict.set("DecodeParms", Object::Dictionary(wide.clone()));
    let x = XImage { width: 10, height: 10, stream: packed };
    assert_eq!(x.decode(), (ImageKind::Rgb8, vec![9; 300]));
    let x = stored(
        1,
        1,
        &[
            ("Filter", name("ASCIIHexDecode")),
            ("DecodeParms", Object::Dictionary(wide)),
        ],
        b"0a>",
    );
    assert_eq!(x.decode(), (ImageKind::Gray8, vec![10]));
}

#[test]
fn predicted_rows_are_unpacked() {
    // Two rows of three pixels, each with the kind of its prediction before it.
    let rows = vec![1, 1, 1, 1, 2, 1, 1, 1];
    let mut packed = Stream::new(dict(&[]), rows.repeat(100));
    packed.compress().unwrap();
    packed.dict.set(
        "DecodeParms",
        Object::Dictionary(dict(&[
            ("Predictor", Object::Integer(15)),
            ("Columns", Object::Integer(3)),
        ])),
    );
    let x = XImage { width: 3, height: 200, stream: packed };
    let (kind, pixels) = x.decode();
    assert_eq!(kind, ImageKind::Gray8);
    assert_eq!(&pixels[..6], &[1, 2, 3, 2, 3, 4]);
    assert_eq!(pixels.len(), 600);
}

fn compare_cut(a: &[(String, FormX)], b: &[(String, FormX)], levels: usize) {
    if levels == 0 {
        assert!(b.is_empty());
        return;
    }
    assert_eq!(names(a), names(b));
    for ((_, x), (_, y)) in a.iter().zip(b) {
        assert_eq!(x.content, y.content);
        assert_eq!(x.matrix, y.matrix);
        assert_eq!(x.resources, y.resources);
        assert_eq!(names(&x.images), names(&y.images));
        compare_cut(&x.forms, &y.forms, levels - 1);
    }
}

#[test]
fn depth_only_cuts_off() {
    let mut doc = Document::new();
    let a = doc.new_object_id();
    let own = resources(&[
        ("Again", Object::Reference(a)),
        ("Im", Object::Stream(image(&[], &[1]))),
    ]);
    let again = form(&[("Resources", Object::Dictionary(own))], b"/Again Do");
    doc.objects.insert(a, Object::Stream(again));
    let res = resources(&[("First", Object::Reference(a)), ("B", Object::Stream(form(&[], b"b")))]);
    let all = build_forms_from_resources(&doc, &res, 0);
    for depth in 0..=MAX_FORM_DEPTH {
        let some = build_forms_from_resources(&doc, &res, depth);
        compare_cut(&all, &some, MAX_FORM_DEPTH - depth);
        assert_eq!(levels(&some), MAX_FORM_DEPTH - depth);
    }
    assert!(build_forms_from_resources(&doc, &res, 9).is_empty());
}
