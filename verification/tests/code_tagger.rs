use tagd::taggers::code::{code_tags, license, size_class};

#[test]
fn code_size_class_buckets() {
    assert_eq!(size_class(0), "tiny");
    assert_eq!(size_class(49), "tiny");
    assert_eq!(size_class(50), "small");
    assert_eq!(size_class(199), "small");
    assert_eq!(size_class(200), "medium");
    assert_eq!(size_class(599), "medium");
    assert_eq!(size_class(600), "large");
    assert_eq!(size_class(1999), "large");
    assert_eq!(size_class(2000), "huge");
}

#[test]
fn code_license_takes_first_word_and_strips_comment_closer() {
    assert_eq!(license("// SPDX-License-Identifier: MIT\n"), "MIT");
    assert_eq!(license("/* SPDX-License-Identifier: MIT*/\n"), "MIT");
    assert_eq!(license("/* SPDX-License-Identifier: MIT */\n"), "MIT");
    assert_eq!(license("# SPDX-License-Identifier: MIT-0\n"), "MIT-0");
    assert_eq!(license("// SPDX-License-Identifier: Apache-2.0 OR MIT\n"), "Apache-2.0");
    assert_eq!(license("// SPDX-License-Identifier:\n"), "none");
    assert_eq!(license("// SPDX-License-Identifier: */\n"), "none");
    assert_eq!(license("fn main() {}\n"), "none");
    assert_eq!(license(""), "none");
}

#[test]
fn code_license_only_scans_the_first_thirty_lines() {
    let mut late = "\n".repeat(30);
    late.push_str("// SPDX-License-Identifier: GPL-3.0\n");
    assert_eq!(license(&late), "none");
    let mut edge = "\n".repeat(29);
    edge.push_str("// SPDX-License-Identifier: GPL-3.0\n");
    assert_eq!(license(&edge), "GPL-3.0");
}

#[test]
fn code_tags_count_lines_and_markers() {
    let src = "// SPDX-License-Identifier: BSD-3-Clause\n\nfn main() {\n    // TODO: fix this XXX\n  \n    // FIXME\n}\n// hack is not a marker\n";
    let tags = code_tags(src);
    assert_eq!(
        tags,
        vec![
            ("code-lines".to_string(), "6".to_string()),
            ("code-size-class".to_string(), "tiny".to_string()),
            ("code-markers".to_string(), "2".to_string()),
            ("code-has-markers".to_string(), "true".to_string()),
            ("code-license".to_string(), "BSD-3-Clause".to_string()),
        ]
    );
}

#[test]
fn code_tags_of_empty_source() {
    let tags = code_tags("");
    assert_eq!(tags[0], ("code-lines".to_string(), "0".to_string()));
    assert_eq!(tags[2], ("code-markers".to_string(), "0".to_string()));
    assert_eq!(tags[3], ("code-has-markers".to_string(), "false".to_string()));
    assert_eq!(tags[4], ("code-license".to_string(), "none".to_string()));
}
