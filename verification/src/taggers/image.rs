//! Image geometry and pixel format, read from the header only.
use vstd::prelude::*;

use crate::strutil::{bool_text, decimal, fmt_bool, fmt_u64};
use crate::tagger::{dep_views, key_texts, tagger_info, Dependency, TaggerInfo, tag, tag_views};

verus! {

/// `landscape`, `portrait` or `square`.
pub open spec fn orientation_name(width: u32, height: u32) -> Seq<char> {
    if width > height {
        "landscape"@
    } else if width < height {
        "portrait"@
    } else {
        "square"@
    }
}

/// Which way the image is longer.
pub fn orientation(width: u32, height: u32) -> (r: &'static str)
    ensures
        r@ == orientation_name(width, height),
{
    if width > height {
        "landscape"
    } else if width < height {
        "portrait"
    } else {
        "square"
    }
}

/// `icon`, `thumbnail`, `small`, `medium`, `large` for a longer edge below
/// 65, 321, 1025, 2049 and 4097 pixels, `huge` from there on.
pub open spec fn resolution_class_name(longest_edge: u32) -> Seq<char> {
    if longest_edge < 65 {
        "icon"@
    } else if longest_edge < 321 {
        "thumbnail"@
    } else if longest_edge < 1025 {
        "small"@
    } else if longest_edge < 2049 {
        "medium"@
    } else if longest_edge < 4097 {
        "large"@
    } else {
        "huge"@
    }
}

/// The resolution bucket for the image's longer edge.
pub fn resolution_class(longest_edge: u32) -> (r: &'static str)
    ensures
        r@ == resolution_class_name(longest_edge),
{
    if longest_edge < 65 {
        "icon"
    } else if longest_edge < 321 {
        "thumbnail"
    } else if longest_edge < 1025 {
        "small"
    } else if longest_edge < 2049 {
        "medium"
    } else if longest_edge < 4097 {
        "large"
    } else {
        "huge"
    }
}

/// What the tagger reads from an image header.
pub struct ImageHeader {
    /// The container format's name, lower-cased.
    pub format: String,
    pub width: u32,
    pub height: u32,
    /// The colour type's name, lower-cased.
    pub color: String,
    pub alpha: bool,
    /// The named aspect ratio, long side first, or `other`.
    pub aspect: String,
}

/// The tags of an image header; none when a dimension is zero, since that
/// means a malformed header.
pub open spec fn image_tags_of(h: ImageHeader) -> Seq<(Seq<char>, Seq<char>)> {
    if h.width == 0 || h.height == 0 {
        Seq::empty()
    } else {
        let longest: u32 = if h.width > h.height {
            h.width
        } else {
            h.height
        };
        seq![
            ("image-format"@, h.format@),
            ("width"@, decimal(h.width as nat)),
            ("height"@, decimal(h.height as nat)),
            ("dimensions"@, decimal(h.width as nat) + "x"@ + decimal(h.height as nat)),
            ("orientation"@, orientation_name(h.width, h.height)),
            ("aspect"@, h.aspect@),
            ("resolution-class"@, resolution_class_name(longest)),
            ("image-color"@, h.color@),
            ("image-alpha"@, bool_text(h.alpha)),
        ]
    }
}

/// The orientation says which edge is longer: `landscape` exactly when the
/// width is, `portrait` exactly when the height is, `square` when they are
/// equal; swapping the edges swaps landscape and portrait.
pub proof fn lemma_orientation_follows_longer_edge(width: u32, height: u32)
    ensures
        orientation_name(width, height) == "landscape"@ <==> width > height,
        orientation_name(width, height) == "portrait"@ <==> width < height,
        orientation_name(width, height) == "square"@ <==> width == height,
        orientation_name(width, height) == "landscape"@ <==> orientation_name(height, width) == "portrait"@,
{
    reveal_strlit("landscape");
    reveal_strlit("portrait");
    reveal_strlit("square");
    assert("landscape"@.len() == 9 && "portrait"@.len() == 8 && "square"@.len() == 6);
}

/// The resolution class is that of the longer edge: a header with both edges
/// non-zero is tagged with the class of whichever edge is at least as long as
/// the other, so swapping width and height leaves the class unchanged.
pub proof fn lemma_resolution_class_of_longer_edge(h: ImageHeader)
    requires
        h.width > 0,
        h.height > 0,
    ensures
        h.width >= h.height ==> image_tags_of(h).contains(("resolution-class"@, resolution_class_name(h.width))),
        h.height >= h.width ==> image_tags_of(h).contains(("resolution-class"@, resolution_class_name(h.height))),
{
    assert(image_tags_of(h)[6].0 == "resolution-class"@);
    if h.width >= h.height {
        assert(image_tags_of(h)[6] == ("resolution-class"@, resolution_class_name(h.width)));
    }
    if h.height >= h.width {
        assert(image_tags_of(h)[6] == ("resolution-class"@, resolution_class_name(h.height)));
    }
}

/// The tags of an image header.
pub fn image_tags(h: ImageHeader) -> (tags: Vec<(String, String)>)
    ensures
        tag_views(tags@) == image_tags_of(h),
{
    let mut tags: Vec<(String, String)> = Vec::new();
    if h.width == 0 || h.height == 0 {
        assert(tag_views(tags@) =~= image_tags_of(h));
        return tags;
    }
    let longest = if h.width > h.height {
        h.width
    } else {
        h.height
    };
    let mut dimensions = fmt_u64(h.width as u64);
    dimensions.append("x");
    dimensions.append(fmt_u64(h.height as u64).as_str());
    tags.push(tag("image-format", h.format.clone()));
    tags.push(tag("width", fmt_u64(h.width as u64)));
    tags.push(tag("height", fmt_u64(h.height as u64)));
    tags.push(tag("dimensions", dimensions));
    tags.push(tag("orientation", orientation(h.width, h.height).to_owned()));
    tags.push(tag("aspect", h.aspect.clone()));
    tags.push(tag("resolution-class", resolution_class(longest).to_owned()));
    tags.push(tag("image-color", h.color.clone()));
    tags.push(tag("image-alpha", fmt_bool(h.alpha)));
    assert(tag_views(tags@) =~= image_tags_of(h));
    tags
}

/// What this tagger reports for `--tagd-info`.
pub fn info(version: &str) -> (i: TaggerInfo)
    ensures
        i.name@ == "image"@,
        i.version@ == version@,
        dep_views(i.dependencies@) == seq![("mime"@, Some("image/*"@))],
        key_texts(i.keys@) == seq!["image-format"@, "width"@, "height"@, "dimensions"@, "orientation"@, "aspect"@, "resolution-class"@, "image-color"@, "image-alpha"@],
{
    let mut deps: Vec<Dependency> = Vec::new();
    deps.push(Dependency::matching("mime", "image/*"));
    assert(dep_views(deps@) =~= seq![("mime"@, Some("image/*"@))]);
    let i = tagger_info("image", version, deps, &["image-format", "width", "height", "dimensions", "orientation", "aspect", "resolution-class", "image-color", "image-alpha"]);
    assert(key_texts(i.keys@) =~= seq!["image-format"@, "width"@, "height"@, "dimensions"@, "orientation"@, "aspect"@, "resolution-class"@, "image-color"@, "image-alpha"@]);
    i
}

} // verus!
