use tagd::taggers::audio::{audio_tags, channel_mode, duration_class, push, AudioProperties, AudioTag};
use tagd::taggers::exif::{ascii, display, exif_tags, split_datetime, ExifFields};
use tagd::taggers::image::{image_tags, orientation, resolution_class, ImageHeader};

fn t(k: &str, v: &str) -> (String, String) {
    (k.to_string(), v.to_string())
}

#[test]
fn audio_duration_class_buckets() {
    assert_eq!(duration_class(0), "clip");
    assert_eq!(duration_class(59), "clip");
    assert_eq!(duration_class(60), "short");
    assert_eq!(duration_class(299), "short");
    assert_eq!(duration_class(300), "medium");
    assert_eq!(duration_class(1199), "medium");
    assert_eq!(duration_class(1200), "long");
    assert_eq!(duration_class(5399), "long");
    assert_eq!(duration_class(5400), "very-long");
}

#[test]
fn audio_channel_modes() {
    assert_eq!(channel_mode(0), "unknown");
    assert_eq!(channel_mode(1), "mono");
    assert_eq!(channel_mode(2), "stereo");
    assert_eq!(channel_mode(6), "multichannel");
}

#[test]
fn audio_push_skips_missing_and_empty_values() {
    let mut tags = Vec::new();
    push(&mut tags, "artist", None);
    push(&mut tags, "album", Some(String::new()));
    push(&mut tags, "title", Some("Song".to_string()));
    assert_eq!(tags, vec![t("title", "Song")]);
}

#[test]
fn audio_tags_with_frame() {
    let props = AudioProperties {
        format: "flac".to_string(),
        seconds: 245,
        bitrate: Some(912),
        sample_rate: Some(44100),
        bit_depth: Some(16),
        channels: Some(2),
    };
    let frame = AudioTag {
        artist: Some("  The Band\0\0 ".to_string()),
        album: Some("\0".to_string()),
        title: None,
        genre: Some("Rock".to_string()),
        album_artist: Some(" Various ".to_string()),
        track: Some(3),
        year: Some(1999),
        has_cover: true,
    };
    assert_eq!(
        audio_tags(props, Some(frame)),
        vec![
            t("duration", "245"),
            t("duration-class", "short"),
            t("lossless", "true"),
            t("audio-format", "flac"),
            t("bitrate", "912"),
            t("sample-rate", "44100"),
            t("bit-depth", "16"),
            t("channels", "2"),
            t("channel-mode", "stereo"),
            t("tagged", "true"),
            t("artist", "The Band"),
            t("genre", "Rock"),
            t("album-artist", "Various"),
            t("track", "3"),
            t("year", "1999"),
            t("has-cover", "true"),
        ]
    );
}

#[test]
fn audio_tags_without_frame() {
    let props = AudioProperties {
        format: "mpeg".to_string(),
        seconds: 7200,
        bitrate: None,
        sample_rate: None,
        bit_depth: None,
        channels: None,
    };
    assert_eq!(
        audio_tags(props, None),
        vec![
            t("duration", "7200"),
            t("duration-class", "very-long"),
            t("lossless", "false"),
            t("audio-format", "mpeg"),
            t("tagged", "false"),
        ]
    );
}

#[test]
fn exif_split_datetime_shapes() {
    assert_eq!(
        split_datetime("2023:07:14 10:23:45"),
        Some(("2023-07-14".to_string(), "2023".to_string()))
    );
    assert_eq!(split_datetime("1999:12:31 23:59:59"), Some(("1999-12-31".to_string(), "1999".to_string())));
    assert_eq!(split_datetime("2023:07:14"), None);
    assert_eq!(split_datetime("  2023:07:14"), None);
    assert_eq!(split_datetime("2023:07:14 10:23:45 x"), None);
    assert_eq!(split_datetime("2023:07:14:99 x"), None);
    assert_eq!(split_datetime("2023:07:14T10:23:45"), None);
    assert_eq!(split_datetime("2023:07:14 10:23:4x"), None);
    assert_eq!(split_datetime(""), None);
    assert_eq!(split_datetime("2023-07-14 10:23:45"), None);
    assert_eq!(split_datetime("2023:7:14 10:23:45"), None);
    assert_eq!(split_datetime("20a3:07:14"), None);
    assert_eq!(split_datetime("2023:07"), None);
    assert_eq!(split_datetime("    "), None);
    assert_eq!(split_datetime("2023:07:1４"), None);
}

#[test]
fn exif_ascii_joins_and_trims() {
    assert_eq!(ascii(&vec![b"Canon\0\0".to_vec()]), Some("Canon".to_string()));
    assert_eq!(ascii(&vec![b"EOS".to_vec(), b"R5 ".to_vec()]), Some("EOS R5".to_string()));
    assert_eq!(ascii(&vec![b"  \0 ".to_vec()]), None);
    assert_eq!(ascii(&vec![]), None);
    assert_eq!(ascii(&vec![vec![b'a', 0xff]]), Some("a\u{FFFD}".to_string()));
}

#[test]
fn exif_display_trims() {
    assert_eq!(display(" f/2.8 "), Some("f/2.8".to_string()));
    assert_eq!(display("   "), None);
}

#[test]
fn exif_tags_absent_and_present() {
    assert_eq!(exif_tags(None), vec![t("exif", "false")]);
    let fields = ExifFields {
        make: Some(vec![b"Canon".to_vec()]),
        model: None,
        lens: Some(vec![b"  ".to_vec()]),
        software: None,
        iso: Some("100".to_string()),
        aperture: Some("f/2.8".to_string()),
        shutter: None,
        focal_length: Some("50 mm".to_string()),
        focal_length_35mm: None,
        date_taken: Some(vec![b"2023:07:14 10:23:45".to_vec()]),
        gps: true,
    };
    assert_eq!(
        exif_tags(Some(fields)),
        vec![
            t("exif", "true"),
            t("camera-make", "Canon"),
            t("iso", "100"),
            t("aperture", "f/2.8"),
            t("focal-length", "50 mm"),
            t("date-taken", "2023-07-14"),
            t("year-taken", "2023"),
            t("gps", "true"),
        ]
    );
}

#[test]
fn image_orientation_and_resolution() {
    assert_eq!(orientation(1920, 1080), "landscape");
    assert_eq!(orientation(1080, 1920), "portrait");
    assert_eq!(orientation(10, 10), "square");
    assert_eq!(resolution_class(64), "icon");
    assert_eq!(resolution_class(65), "thumbnail");
    assert_eq!(resolution_class(320), "thumbnail");
    assert_eq!(resolution_class(1024), "small");
    assert_eq!(resolution_class(2048), "medium");
    assert_eq!(resolution_class(4096), "large");
    assert_eq!(resolution_class(4097), "huge");
}

#[test]
fn image_tags_for_header() {
    let h = ImageHeader {
        format: "png".to_string(),
        width: 1080,
        height: 1920,
        color: "rgba8".to_string(),
        alpha: true,
        aspect: "16:9".to_string(),
    };
    assert_eq!(
        image_tags(h),
        vec![
            t("image-format", "png"),
            t("width", "1080"),
            t("height", "1920"),
            t("dimensions", "1080x1920"),
            t("orientation", "portrait"),
            t("aspect", "16:9"),
            t("resolution-class", "medium"),
            t("image-color", "rgba8"),
            t("image-alpha", "true"),
        ]
    );
    let zero = ImageHeader {
        format: "png".to_string(),
        width: 0,
        height: 5,
        color: "l8".to_string(),
        alpha: false,
        aspect: "other".to_string(),
    };
    assert!(image_tags(zero).is_empty());
}
