//! Camera metadata from Exif: what shot the photo, with what settings, when,
//! and whether it carries a location.
use vstd::prelude::*;

use crate::strutil::{
    bool_text, chars_of, clean, clean_text, fmt_bool, lossy_text, trim, trim_bounds, utf8_lossy,
};
use crate::tagger::{dep_views, key_texts, tagger_info, Dependency, TaggerInfo, opt_tag, opt_view, push_some, tag, tag_views};

verus! {

/// `c` is an ASCII digit.
pub open spec fn is_digit(c: char) -> bool {
    '0' <= c <= '9'
}

/// The character an Exif `YYYY:MM:DD HH:MM:SS` timestamp has at position `i`:
/// a separator where the shape puts one, a digit everywhere else.
pub open spec fn datetime_char_ok(c: char, i: int) -> bool {
    if i == 4 || i == 7 || i == 13 || i == 16 {
        c == ':'
    } else if i == 10 {
        c == ' '
    } else {
        is_digit(c)
    }
}

/// The whole of `value` has the Exif shape `YYYY:MM:DD HH:MM:SS`, in digits.
pub open spec fn is_exif_datetime(value: Seq<char>) -> bool {
    &&& value.len() == 19
    &&& forall|i: int| 0 <= i < 19 ==> datetime_char_ok(#[trigger] value[i], i)
}

/// An Exif `YYYY:MM:DD HH:MM:SS` timestamp as an ISO date and its year;
/// `None` for anything without that shape.
pub open spec fn split_datetime_of(value: Seq<char>) -> Option<(Seq<char>, Seq<char>)> {
    if is_exif_datetime(value) {
        let y = value.subrange(0, 4);
        Some((y + "-"@ + value.subrange(5, 7) + "-"@ + value.subrange(8, 10), y))
    } else {
        None
    }
}

/// Splits an Exif `YYYY:MM:DD HH:MM:SS` timestamp into an ISO date and its
/// year. Returns `None` for anything that doesn't have that shape.
pub fn split_datetime(value: &str) -> (r: Option<(String, String)>)
    ensures
        match r {
            Some(p) => split_datetime_of(value@) == Some((p.0@, p.1@)),
            None => split_datetime_of(value@) is None,
        },
{
    let v = chars_of(value);
    if v.len() != 19 {
        return None;
    }
    let mut i: usize = 0;
    while i < 19
        invariant
            v@ == value@,
            v@.len() == 19,
            i <= 19,
            forall|j: int| 0 <= j < i ==> datetime_char_ok(#[trigger] v@[j], j),
        decreases 19 - i,
    {
        let c = v[i];
        let ok = if i == 4 || i == 7 || i == 13 || i == 16 {
            c == ':'
        } else if i == 10 {
            c == ' '
        } else {
            '0' <= c && c <= '9'
        };
        if !ok {
            assert(!datetime_char_ok(value@[i as int], i as int));
            return None;
        }
        i += 1;
    }
    let year = value.substring_char(0, 4);
    let mut iso = year.to_owned();
    iso.append("-");
    iso.append(value.substring_char(5, 7));
    iso.append("-");
    iso.append(value.substring_char(8, 10));
    proof {
        reveal_strlit("-");
    }
    Some((iso, year.to_owned()))
}

/// Exif Ascii parts joined by spaces.
pub open spec fn join_space(parts: Seq<Seq<char>>) -> Seq<char>
    decreases parts.len(),
{
    if parts.len() == 0 {
        Seq::empty()
    } else if parts.len() == 1 {
        parts[0]
    } else {
        join_space(parts.drop_last()) + " "@ + parts.last()
    }
}

/// The text of each part.
pub open spec fn part_texts(parts: Seq<Vec<u8>>) -> Seq<Seq<char>> {
    parts.map_values(|p: Vec<u8>| utf8_lossy(p@))
}

/// An Ascii-typed field as plain text: its parts joined by spaces, padding
/// trimmed; `None` when nothing is left.
pub open spec fn ascii_of(parts: Seq<Vec<u8>>) -> Option<Seq<char>> {
    let text = clean_text(join_space(part_texts(parts)));
    if text.len() > 0 {
        Some(text)
    } else {
        None
    }
}

/// An Ascii-typed field as a plain string, or `None` if empty. Cameras pad
/// these generously, hence the trim.
pub fn ascii(parts: &Vec<Vec<u8>>) -> (r: Option<String>)
    ensures
        opt_view(r) == ascii_of(parts@),
{
    let mut joined = String::new();
    let mut i: usize = 0;
    while i < parts.len()
        invariant
            i <= parts@.len(),
            joined@ == join_space(part_texts(parts@).take(i as int)),
        decreases parts.len() - i,
    {
        let piece = lossy_text(parts[i].as_slice());
        proof {
            assert(part_texts(parts@).take(i + 1).drop_last() =~= part_texts(parts@).take(i as int));
        }
        if i > 0 {
            joined.append(" ");
        } else {
            assert(part_texts(parts@).take(1) =~= seq![piece@]);
        }
        joined.append(piece.as_str());
        i += 1;
    }
    assert(part_texts(parts@).take(parts@.len() as int) =~= part_texts(parts@));
    let text = clean(joined.as_str());
    if text.as_str().is_empty() {
        None
    } else {
        Some(text)
    }
}

/// A rendered field, trimmed; `None` when nothing is left.
pub open spec fn display_of(text: Seq<char>) -> Option<Seq<char>> {
    if trim(text, false).len() > 0 {
        Some(trim(text, false))
    } else {
        None
    }
}

/// A field rendered the way Exif tooling renders it, units included, trimmed.
pub fn display(text: &str) -> (r: Option<String>)
    ensures
        opt_view(r) == display_of(text@),
{
    let v = chars_of(text);
    let (a, b) = trim_bounds(&v, 0, v.len(), false);
    assert(v@.subrange(0, v@.len() as int) =~= text@);
    if a == b {
        None
    } else {
        Some(text.substring_char(a, b).to_owned())
    }
}

/// What the tagger reads from a file's primary Exif directory: Ascii fields
/// as their raw parts, rendered fields as text, `None` where absent.
pub struct ExifFields {
    pub make: Option<Vec<Vec<u8>>>,
    pub model: Option<Vec<Vec<u8>>>,
    pub lens: Option<Vec<Vec<u8>>>,
    pub software: Option<Vec<Vec<u8>>>,
    pub iso: Option<String>,
    pub aperture: Option<String>,
    pub shutter: Option<String>,
    pub focal_length: Option<String>,
    pub focal_length_35mm: Option<String>,
    pub date_taken: Option<Vec<Vec<u8>>>,
    pub gps: bool,
}

pub open spec fn opt_ascii(parts: Option<Vec<Vec<u8>>>) -> Option<Seq<char>> {
    match parts {
        Some(p) => ascii_of(p@),
        None => None,
    }
}

pub open spec fn opt_display(text: Option<String>) -> Option<Seq<char>> {
    match text {
        Some(t) => display_of(t@),
        None => None,
    }
}

/// The date tags for a `DateTimeOriginal` value.
pub open spec fn date_tags_of(taken: Option<Seq<char>>) -> Seq<(Seq<char>, Seq<char>)> {
    match taken {
        Some(t) => match split_datetime_of(t) {
            Some(p) => seq![("date-taken"@, p.0), ("year-taken"@, p.1)],
            None => Seq::empty(),
        },
        None => Seq::empty(),
    }
}

/// The tags of an image with an Exif directory.
pub open spec fn exif_fields_tags(f: ExifFields) -> Seq<(Seq<char>, Seq<char>)> {
    seq![("exif"@, bool_text(true))] + opt_tag("camera-make"@, opt_ascii(f.make)) + opt_tag(
        "camera-model"@,
        opt_ascii(f.model),
    ) + opt_tag("lens"@, opt_ascii(f.lens)) + opt_tag("software"@, opt_ascii(f.software)) + opt_tag(
        "iso"@,
        opt_display(f.iso),
    ) + opt_tag("aperture"@, opt_display(f.aperture)) + opt_tag("shutter"@, opt_display(f.shutter))
        + opt_tag("focal-length"@, opt_display(f.focal_length)) + opt_tag(
        "focal-length-35mm"@,
        opt_display(f.focal_length_35mm),
    ) + date_tags_of(opt_ascii(f.date_taken)) + seq![("gps"@, bool_text(f.gps))]
}

/// The tags of an image: `exif: false` alone when it has no Exif directory
/// (an ordinary outcome, not a failure).
pub open spec fn exif_tags_of(f: Option<ExifFields>) -> Seq<(Seq<char>, Seq<char>)> {
    match f {
        Some(f) => exif_fields_tags(f),
        None => seq![("exif"@, bool_text(false))],
    }
}

fn ascii_opt(parts: &Option<Vec<Vec<u8>>>) -> (r: Option<String>)
    ensures
        opt_view(r) == opt_ascii(*parts),
{
    match parts {
        Some(p) => ascii(p),
        None => None,
    }
}

fn display_opt(text: &Option<String>) -> (r: Option<String>)
    ensures
        opt_view(r) == opt_display(*text),
{
    match text {
        Some(t) => display(t.as_str()),
        None => None,
    }
}

fn camera_tags(tags: &mut Vec<(String, String)>, f: &ExifFields)
    ensures
        tag_views(final(tags)@) == tag_views(old(tags)@) + opt_tag("camera-make"@, opt_ascii(f.make))
            + opt_tag("camera-model"@, opt_ascii(f.model)) + opt_tag("lens"@, opt_ascii(f.lens)) + opt_tag(
            "software"@,
            opt_ascii(f.software),
        ) + opt_tag("iso"@, opt_display(f.iso)) + opt_tag("aperture"@, opt_display(f.aperture))
            + opt_tag("shutter"@, opt_display(f.shutter)) + opt_tag(
            "focal-length"@,
            opt_display(f.focal_length),
        ) + opt_tag("focal-length-35mm"@, opt_display(f.focal_length_35mm)),
{
    push_some(tags, "camera-make", ascii_opt(&f.make));
    push_some(tags, "camera-model", ascii_opt(&f.model));
    push_some(tags, "lens", ascii_opt(&f.lens));
    push_some(tags, "software", ascii_opt(&f.software));
    push_some(tags, "iso", display_opt(&f.iso));
    push_some(tags, "aperture", display_opt(&f.aperture));
    push_some(tags, "shutter", display_opt(&f.shutter));
    push_some(tags, "focal-length", display_opt(&f.focal_length));
    push_some(tags, "focal-length-35mm", display_opt(&f.focal_length_35mm));
}

/// The tags of an image given what was read of its Exif directory.
pub fn exif_tags(fields: Option<ExifFields>) -> (tags: Vec<(String, String)>)
    ensures
        tag_views(tags@) == exif_tags_of(fields),
{
    let mut tags: Vec<(String, String)> = Vec::new();
    match &fields {
        None => {
            tags.push(tag("exif", fmt_bool(false)));
            assert(tag_views(tags@) =~= exif_tags_of(fields));
        },
        Some(f) => {
            tags.push(tag("exif", fmt_bool(true)));
            camera_tags(&mut tags, f);
            let ghost before_date = tag_views(tags@);
            match ascii_opt(&f.date_taken) {
                Some(taken) => match split_datetime(taken.as_str()) {
                    Some((date, year)) => {
                        tags.push(tag("date-taken", date));
                        tags.push(tag("year-taken", year));
                    },
                    None => {},
                },
                None => {},
            }
            assert(tag_views(tags@) =~= before_date + date_tags_of(opt_ascii(f.date_taken)));
            let ghost before_gps = tag_views(tags@);
            tags.push(tag("gps", fmt_bool(f.gps)));
            assert(tag_views(tags@) =~= before_gps + seq![("gps"@, bool_text(f.gps))]);
            assert(tag_views(tags@) =~= exif_tags_of(fields));
        },
    }
    tags
}

/// What this tagger reports for `--tagd-info`.
pub fn info(version: &str) -> (i: TaggerInfo)
    ensures
        i.name@ == "exif"@,
        i.version@ == version@,
        dep_views(i.dependencies@) == seq![("mime"@, Some("image/*"@))],
        key_texts(i.keys@) == seq!["exif"@, "camera-make"@, "camera-model"@, "lens"@, "iso"@, "aperture"@, "shutter"@, "focal-length"@, "focal-length-35mm"@, "date-taken"@, "year-taken"@, "software"@, "gps"@],
{
    let mut deps: Vec<Dependency> = Vec::new();
    deps.push(Dependency::matching("mime", "image/*"));
    assert(dep_views(deps@) =~= seq![("mime"@, Some("image/*"@))]);
    let i = tagger_info("exif", version, deps, &["exif", "camera-make", "camera-model", "lens", "iso", "aperture", "shutter", "focal-length", "focal-length-35mm", "date-taken", "year-taken", "software", "gps"]);
    assert(key_texts(i.keys@) =~= seq!["exif"@, "camera-make"@, "camera-model"@, "lens"@, "iso"@, "aperture"@, "shutter"@, "focal-length"@, "focal-length-35mm"@, "date-taken"@, "year-taken"@, "software"@, "gps"@]);
    i
}

} // verus!
