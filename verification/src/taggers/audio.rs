//! Embedded audio metadata and stream properties.
use vstd::prelude::*;

use crate::strutil::{bool_text, clean, clean_text, decimal, fmt_bool, fmt_u64, same_text};
use crate::tagger::{dep_views, key_texts, tagger_info, Dependency, TaggerInfo, opt_tag, opt_view, push_some, tag, tag_views};

verus! {

/// `clip`, `short`, `medium`, `long` below 1, 5, 20 and 90 minutes,
/// `very-long` from there on.
pub open spec fn duration_class_name(seconds: nat) -> Seq<char> {
    if seconds < 60 {
        "clip"@
    } else if seconds < 300 {
        "short"@
    } else if seconds < 1200 {
        "medium"@
    } else if seconds < 5400 {
        "long"@
    } else {
        "very-long"@
    }
}

/// The duration bucket for a length in seconds.
pub fn duration_class(seconds: u64) -> (r: &'static str)
    ensures
        r@ == duration_class_name(seconds as nat),
{
    if seconds < 60 {
        "clip"
    } else if seconds < 5 * 60 {
        "short"
    } else if seconds < 20 * 60 {
        "medium"
    } else if seconds < 90 * 60 {
        "long"
    } else {
        "very-long"
    }
}

/// `unknown`, `mono`, `stereo` or `multichannel`.
pub open spec fn channel_mode_name(channels: u8) -> Seq<char> {
    if channels == 0 {
        "unknown"@
    } else if channels == 1 {
        "mono"@
    } else if channels == 2 {
        "stereo"@
    } else {
        "multichannel"@
    }
}

/// The channel layout for a channel count.
pub fn channel_mode(channels: u8) -> (r: &'static str)
    ensures
        r@ == channel_mode_name(channels),
{
    match channels {
        0 => "unknown",
        1 => "mono",
        2 => "stereo",
        _ => "multichannel",
    }
}

/// Formats that store samples without loss.
pub open spec fn is_lossless(format: Seq<char>) -> bool {
    format == "flac"@ || format == "wav"@ || format == "aiff"@ || format == "ape"@ || format == "wavpack"@
}

/// The tag `(key, value)` when there is a non-empty value, nothing otherwise.
pub open spec fn nonempty_tag(key: Seq<char>, value: Option<Seq<char>>) -> Seq<(Seq<char>, Seq<char>)> {
    match value {
        Some(v) => if v.len() > 0 {
            seq![(key, v)]
        } else {
            Seq::empty()
        },
        None => Seq::empty(),
    }
}

/// Appends `(key, value)` when there is a value and it is not empty.
pub fn push(tags: &mut Vec<(String, String)>, key: &str, value: Option<String>)
    ensures
        tag_views(final(tags)@) == tag_views(old(tags)@) + nonempty_tag(key@, opt_view(value)),
{
    let ghost before = tags@;
    if let Some(v) = value {
        if v.as_str().is_empty() {
            assert(tag_views(tags@) =~= tag_views(before) + nonempty_tag(key@, opt_view(value)));
            return;
        }
        tags.push(tag(key, v));
    }
    assert(tag_views(tags@) =~= tag_views(before) + nonempty_tag(key@, opt_view(value)));
}

/// The decimal numeral of an optional number.
pub open spec fn opt_decimal(n: Option<u64>) -> Option<Seq<char>> {
    match n {
        Some(n) => Some(decimal(n as nat)),
        None => None,
    }
}

/// The cleaned text of an optional string.
pub open spec fn opt_clean(s: Option<String>) -> Option<Seq<char>> {
    match s {
        Some(s) => Some(clean_text(s@)),
        None => None,
    }
}

/// Stream properties read from the file header.
pub struct AudioProperties {
    /// The container format's name, lower-cased.
    pub format: String,
    pub seconds: u64,
    pub bitrate: Option<u64>,
    pub sample_rate: Option<u64>,
    pub bit_depth: Option<u64>,
    pub channels: Option<u8>,
}

/// The fields read from a file's tag frames, raw.
pub struct AudioTag {
    pub artist: Option<String>,
    pub album: Option<String>,
    pub title: Option<String>,
    pub genre: Option<String>,
    pub album_artist: Option<String>,
    pub track: Option<u64>,
    pub year: Option<u64>,
    pub has_cover: bool,
}

/// The tags for the stream properties.
pub open spec fn stream_tags_of(p: AudioProperties) -> Seq<(Seq<char>, Seq<char>)> {
    seq![
        ("duration"@, decimal(p.seconds as nat)),
        ("duration-class"@, duration_class_name(p.seconds as nat)),
        ("lossless"@, bool_text(is_lossless(p.format@))),
        ("audio-format"@, p.format@),
    ] + opt_tag("bitrate"@, opt_decimal(p.bitrate)) + opt_tag("sample-rate"@, opt_decimal(p.sample_rate))
        + opt_tag("bit-depth"@, opt_decimal(p.bit_depth)) + match p.channels {
        Some(c) => seq![("channels"@, decimal(c as nat)), ("channel-mode"@, channel_mode_name(c))],
        None => Seq::empty(),
    }
}

/// The tags for a tag frame's fields.
pub open spec fn frame_tags_of(t: AudioTag) -> Seq<(Seq<char>, Seq<char>)> {
    nonempty_tag("artist"@, opt_clean(t.artist)) + nonempty_tag("album"@, opt_clean(t.album))
        + nonempty_tag("title"@, opt_clean(t.title)) + nonempty_tag("genre"@, opt_clean(t.genre))
        + nonempty_tag("album-artist"@, opt_clean(t.album_artist)) + nonempty_tag(
        "track"@,
        opt_decimal(t.track),
    ) + nonempty_tag("year"@, opt_decimal(t.year)) + seq![("has-cover"@, bool_text(t.has_cover))]
}

/// The tags of an audio file, given its stream properties and its tag frame
/// (`None` when it carries none).
pub open spec fn audio_tags_of(p: AudioProperties, t: Option<AudioTag>) -> Seq<(Seq<char>, Seq<char>)> {
    stream_tags_of(p) + seq![("tagged"@, bool_text(t is Some))] + match t {
        Some(t) => frame_tags_of(t),
        None => Seq::empty(),
    }
}

proof fn lemma_in_either(a: Seq<(Seq<char>, Seq<char>)>, b: Seq<(Seq<char>, Seq<char>)>, x: (Seq<char>, Seq<char>))
    ensures
        a.contains(x) || b.contains(x) ==> (a + b).contains(x),
{
    if a.contains(x) {
        let i = choose|i: int| 0 <= i < a.len() && a[i] == x;
        assert((a + b)[i] == x);
    } else if b.contains(x) {
        let i = choose|i: int| 0 <= i < b.len() && b[i] == x;
        assert((a + b)[a.len() + i] == x);
    }
}

proof fn lemma_nonempty_tag_holds(key: Seq<char>, field: Option<String>)
    ensures
        field is Some && clean_text(field.unwrap()@).len() > 0 ==> nonempty_tag(key, opt_clean(field)).contains(
            (key, clean_text(field.unwrap()@)),
        ),
{
    if let Some(s) = field {
        if clean_text(s@).len() > 0 {
            assert(nonempty_tag(key, opt_clean(field))[0] == (key, clean_text(s@)));
        }
    }
}

/// Each text field of the tag frame is tagged under its own key: whenever the
/// artist, album, title, genre or album artist cleans to non-empty text, the
/// tags hold that text under that field's key. The cover flag is always
/// tagged.
pub proof fn lemma_frame_fields_keep_their_keys(p: AudioProperties, t: AudioTag)
    ensures
        t.artist is Some && clean_text(t.artist.unwrap()@).len() > 0 ==> audio_tags_of(p, Some(t)).contains(
            ("artist"@, clean_text(t.artist.unwrap()@)),
        ),
        t.album is Some && clean_text(t.album.unwrap()@).len() > 0 ==> audio_tags_of(p, Some(t)).contains(
            ("album"@, clean_text(t.album.unwrap()@)),
        ),
        t.title is Some && clean_text(t.title.unwrap()@).len() > 0 ==> audio_tags_of(p, Some(t)).contains(
            ("title"@, clean_text(t.title.unwrap()@)),
        ),
        t.genre is Some && clean_text(t.genre.unwrap()@).len() > 0 ==> audio_tags_of(p, Some(t)).contains(
            ("genre"@, clean_text(t.genre.unwrap()@)),
        ),
        t.album_artist is Some && clean_text(t.album_artist.unwrap()@).len() > 0 ==> audio_tags_of(p, Some(t)).contains(
            ("album-artist"@, clean_text(t.album_artist.unwrap()@)),
        ),
        audio_tags_of(p, Some(t)).contains(("has-cover"@, bool_text(t.has_cover))),
{
    let n1 = nonempty_tag("artist"@, opt_clean(t.artist));
    let n2 = nonempty_tag("album"@, opt_clean(t.album));
    let n3 = nonempty_tag("title"@, opt_clean(t.title));
    let n4 = nonempty_tag("genre"@, opt_clean(t.genre));
    let n5 = nonempty_tag("album-artist"@, opt_clean(t.album_artist));
    let n6 = nonempty_tag("track"@, opt_decimal(t.track));
    let n7 = nonempty_tag("year"@, opt_decimal(t.year));
    let n8 = seq![("has-cover"@, bool_text(t.has_cover))];
    let head = stream_tags_of(p) + seq![("tagged"@, bool_text(true))];
    assert(frame_tags_of(t) == n1 + n2 + n3 + n4 + n5 + n6 + n7 + n8);
    assert(audio_tags_of(p, Some(t)) == head + (n1 + n2 + n3 + n4 + n5 + n6 + n7 + n8));
    assert(n8[0] == ("has-cover"@, bool_text(t.has_cover)));
    assert forall|x: (Seq<char>, Seq<char>)|
        n1.contains(x) || n2.contains(x) || n3.contains(x) || n4.contains(x) || n5.contains(x) || n8.contains(x)
        implies #[trigger] audio_tags_of(p, Some(t)).contains(x) by {
        lemma_in_either(n1, n2, x);
        lemma_in_either(n1 + n2, n3, x);
        lemma_in_either(n1 + n2 + n3, n4, x);
        lemma_in_either(n1 + n2 + n3 + n4, n5, x);
        lemma_in_either(n1 + n2 + n3 + n4 + n5, n6, x);
        lemma_in_either(n1 + n2 + n3 + n4 + n5 + n6, n7, x);
        lemma_in_either(n1 + n2 + n3 + n4 + n5 + n6 + n7, n8, x);
        lemma_in_either(head, n1 + n2 + n3 + n4 + n5 + n6 + n7 + n8, x);
    }
    lemma_nonempty_tag_holds("artist"@, t.artist);
    lemma_nonempty_tag_holds("album"@, t.album);
    lemma_nonempty_tag_holds("title"@, t.title);
    lemma_nonempty_tag_holds("genre"@, t.genre);
    lemma_nonempty_tag_holds("album-artist"@, t.album_artist);
}

fn clean_opt(s: Option<String>) -> (r: Option<String>)
    ensures
        opt_view(r) == opt_clean(s),
{
    match s {
        Some(s) => Some(clean(s.as_str())),
        None => None,
    }
}

fn decimal_opt(n: Option<u64>) -> (r: Option<String>)
    ensures
        opt_view(r) == opt_decimal(n),
{
    match n {
        Some(n) => Some(fmt_u64(n)),
        None => None,
    }
}

/// Whether the format stores samples without loss.
pub fn lossless(format: &str) -> (b: bool)
    ensures
        b == is_lossless(format@),
{
    same_text(format, "flac") || same_text(format, "wav") || same_text(format, "aiff") || same_text(
        format,
        "ape",
    ) || same_text(format, "wavpack")
}

fn stream_tags(tags: &mut Vec<(String, String)>, p: &AudioProperties)
    ensures
        tag_views(final(tags)@) == tag_views(old(tags)@) + stream_tags_of(*p),
{
    let ghost start = tag_views(tags@);
    tags.push(tag("duration", fmt_u64(p.seconds)));
    tags.push(tag("duration-class", duration_class(p.seconds).to_owned()));
    tags.push(tag("lossless", fmt_bool(lossless(p.format.as_str()))));
    tags.push(tag("audio-format", p.format.clone()));
    let ghost head = tag_views(tags@);
    assert(head =~= start + seq![
        ("duration"@, decimal(p.seconds as nat)),
        ("duration-class"@, duration_class_name(p.seconds as nat)),
        ("lossless"@, bool_text(is_lossless(p.format@))),
        ("audio-format"@, p.format@),
    ]);
    push_some(tags, "bitrate", decimal_opt(p.bitrate));
    push_some(tags, "sample-rate", decimal_opt(p.sample_rate));
    push_some(tags, "bit-depth", decimal_opt(p.bit_depth));
    let ghost mid = tag_views(tags@);
    if let Some(c) = p.channels {
        tags.push(tag("channels", fmt_u64(c as u64)));
        tags.push(tag("channel-mode", channel_mode(c).to_owned()));
        assert(tag_views(tags@) =~= mid + seq![
            ("channels"@, decimal(c as nat)),
            ("channel-mode"@, channel_mode_name(c)),
        ]);
    } else {
        assert(tag_views(tags@) =~= mid + Seq::empty());
    }
    assert(tag_views(tags@) =~= start + stream_tags_of(*p));
}

fn frame_tags(tags: &mut Vec<(String, String)>, t: AudioTag)
    ensures
        tag_views(final(tags)@) == tag_views(old(tags)@) + frame_tags_of(t),
{
    let ghost start = tag_views(tags@);
    push(tags, "artist", clean_opt(t.artist));
    push(tags, "album", clean_opt(t.album));
    push(tags, "title", clean_opt(t.title));
    push(tags, "genre", clean_opt(t.genre));
    push(tags, "album-artist", clean_opt(t.album_artist));
    push(tags, "track", decimal_opt(t.track));
    push(tags, "year", decimal_opt(t.year));
    let ghost before_cover = tag_views(tags@);
    tags.push(tag("has-cover", fmt_bool(t.has_cover)));
    assert(tag_views(tags@) =~= before_cover + seq![("has-cover"@, bool_text(t.has_cover))]);
    assert(tag_views(tags@) =~= start + frame_tags_of(t));
}

/// The tags of an audio file: duration and its bucket, losslessness, format,
/// the stream properties the header carries, whether a tag frame is present
/// and, if so, its fields with padding and stray whitespace cleaned away.
pub fn audio_tags(p: AudioProperties, t: Option<AudioTag>) -> (tags: Vec<(String, String)>)
    ensures
        tag_views(tags@) == audio_tags_of(p, t),
{
    let mut tags: Vec<(String, String)> = Vec::new();
    stream_tags(&mut tags, &p);
    let ghost before_tagged = tag_views(tags@);
    tags.push(tag("tagged", fmt_bool(t.is_some())));
    assert(tag_views(tags@) =~= before_tagged + seq![("tagged"@, bool_text(t is Some))]);
    let ghost before_fields = tag_views(tags@);
    match t {
        Some(t) => {
            frame_tags(&mut tags, t);
        },
        None => {
            assert(tag_views(tags@) =~= before_fields + Seq::empty());
        },
    }
    assert(tag_views(tags@) =~= audio_tags_of(p, t));
    tags
}

/// What this tagger reports for `--tagd-info`.
pub fn info(version: &str) -> (i: TaggerInfo)
    ensures
        i.name@ == "audio"@,
        i.version@ == version@,
        dep_views(i.dependencies@) == seq![("mime"@, Some("audio/*"@))],
        key_texts(i.keys@) == seq!["audio-format"@, "duration"@, "duration-class"@, "bitrate"@, "sample-rate"@, "bit-depth"@, "channels"@, "channel-mode"@, "lossless"@, "tagged"@, "artist"@, "album-artist"@, "album"@, "title"@, "track"@, "year"@, "genre"@, "has-cover"@],
{
    let mut deps: Vec<Dependency> = Vec::new();
    deps.push(Dependency::matching("mime", "audio/*"));
    assert(dep_views(deps@) =~= seq![("mime"@, Some("audio/*"@))]);
    let i = tagger_info("audio", version, deps, &["audio-format", "duration", "duration-class", "bitrate", "sample-rate", "bit-depth", "channels", "channel-mode", "lossless", "tagged", "artist", "album-artist", "album", "title", "track", "year", "genre", "has-cover"]);
    assert(key_texts(i.keys@) =~= seq!["audio-format"@, "duration"@, "duration-class"@, "bitrate"@, "sample-rate"@, "bit-depth"@, "channels"@, "channel-mode"@, "lossless"@, "tagged"@, "artist"@, "album-artist"@, "album"@, "title"@, "track"@, "year"@, "genre"@, "has-cover"@]);
    i
}

} // verus!
