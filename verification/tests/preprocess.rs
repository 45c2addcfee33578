use kmeans_color_gpu::color::{insert_unique, key_of, lower_bound, sorted_unique};
use kmeans_color_gpu::error::{Error, ErrorKind};
use kmeans_color_gpu::preprocess::{
    char_is_white_space, chars_of, include_targets, is_inflated, note_inflated, splice,
};
use kmeans_color_gpu::text::{bytes_end_with, bytes_equal, str_ends_with, str_equals};

fn reference(content: &str, inclusions: &[&str]) -> String {
    let mut next = inclusions.iter();
    let lines: Vec<String> = content
        .trim()
        .lines()
        .map(|line| match line.strip_prefix("// #include ") {
            Some(name)
                if !name.is_empty()
                    && name.chars().all(|c| {
                        c.is_ascii_lowercase() || c.is_ascii_digit() || "-_./".contains(c)
                    }) =>
            {
                next.next().unwrap().to_string()
            }
            _ => line.to_string(),
        })
        .collect();
    lines.join("\n") + "\n"
}

#[test]
fn white_space_is_that_of_unicode() {
    for code in 0u32..=0x10ffff {
        if let Some(c) = char::from_u32(code) {
            assert_eq!(char_is_white_space(c), c.is_whitespace(), "{:x}", code);
        }
    }
}

#[test]
fn chars_of_gives_the_characters() {
    assert_eq!(chars_of("aé\n漢"), vec!['a', 'é', '\n', '漢']);
    assert_eq!(chars_of(""), Vec::<char>::new());
}

#[test]
fn include_targets_lists_the_directives() {
    let source = "// #include common/lab.wgsl\nfn main() {}\n// #include distance-2_x.wgsl\n";
    assert_eq!(include_targets(source), vec!["common/lab.wgsl", "distance-2_x.wgsl"]);
    assert_eq!(include_targets("fn main() {}"), Vec::<String>::new());
    assert_eq!(include_targets(""), Vec::<String>::new());
}

#[test]
fn only_whole_lines_of_the_grammar_are_directives() {
    for line in [
        "// #include",
        "// #include ",
        "//#include a.wgsl",
        "// #include A.wgsl",
        "// #include a.wgsl ",
        " // #include a.wgsl",
        "// #include a b.wgsl",
        "// #include a.wgsl // why",
        "// #Include a.wgsl",
        "// #include é.wgsl",
        "x// #include a.wgsl",
    ] {
        let source = format!("fn a() {{}}\n{line}\nfn b() {{}}");
        assert_eq!(include_targets(&source), Vec::<String>::new(), "{:?}", line);
    }
    assert_eq!(include_targets("// #include ../a/b-c_d.0.wgsl"), vec!["../a/b-c_d.0.wgsl"]);
    // The directive of the first line is met after the source was trimmed.
    assert_eq!(include_targets("  \n// #include a.wgsl  \n"), vec!["a.wgsl"]);
    assert_eq!(include_targets("// #include a.wgsl\r\nfn b() {}"), vec!["a.wgsl"]);
}

#[test]
fn splice_replaces_directives_by_inclusions() {
    let source = "// #include a.wgsl\nfn main() {}\n// #include b.wgsl";
    let spliced = splice(source, &vec!["fn a() {}\n".to_string(), "fn b() {}\n".to_string()]);
    assert_eq!(
        spliced,
        Ok("fn a() {}\n\nfn main() {}\nfn b() {}\n\n".to_string())
    );
    assert_eq!(splice("fn main() {}", &vec![]), Ok("fn main() {}\n".to_string()));
    assert_eq!(splice("", &vec![]), Ok("\n".to_string()));
    assert_eq!(splice(" \n\t ", &vec![]), Ok("\n".to_string()));
}

#[test]
fn splice_agrees_with_trim_lines_and_join() {
    let sources = [
        "",
        "\n",
        "a",
        "a\n",
        "a\nb",
        "\n\na\n\nb\n\n",
        "  a  \n  b  ",
        "a\r\nb\r\n",
        "a\rb\n",
        "a\r\r\nb",
        "a\n\r\nb",
        "\u{a0}a\u{3000}",
        "é\n漢\n",
        "// #include x.wgsl",
        "// #include x.wgsl\n// #include y.wgsl\nfn f() {}\n",
        "fn f() {}\r\n// #include x.wgsl\r\n// #include y.wgsl",
        "// #include x.wgsl\r",
    ];
    for source in sources {
        let count = include_targets(source).len();
        let inclusions: Vec<String> = (0..count).map(|i| format!("inclusion {i}\n")).collect();
        let borrowed: Vec<&str> = inclusions.iter().map(|s| s.as_str()).collect();
        assert_eq!(
            splice(source, &inclusions),
            Ok(reference(source, &borrowed)),
            "{:?}",
            source
        );
    }
}

#[test]
fn splice_needs_one_inclusion_for_each_directive() {
    let source = "// #include a.wgsl\n// #include b.wgsl";
    assert_eq!(splice(source, &vec![]), Err(Error::InclusionMismatch));
    assert_eq!(splice(source, &vec!["a".to_string()]), Err(Error::InclusionMismatch));
    assert_eq!(
        splice(source, &vec!["a".to_string(), "b".to_string(), "c".to_string()]),
        Err(Error::InclusionMismatch)
    );
    assert_eq!(splice("fn f() {}", &vec!["a".to_string()]), Err(Error::InclusionMismatch));
    assert_eq!(Error::InclusionMismatch.kind(), ErrorKind::InternalInvariant);
}

#[test]
fn a_file_is_included_once() {
    let mut inflated = vec![];
    assert_eq!(note_inflated(&mut inflated, "/shaders/a.wgsl"), Ok(()));
    assert_eq!(note_inflated(&mut inflated, "/shaders/b.wgsl"), Ok(()));
    assert_eq!(note_inflated(&mut inflated, "/shaders/a.wgsl"), Err(Error::IncludeRecursion));
    assert_eq!(inflated, vec!["/shaders/a.wgsl", "/shaders/b.wgsl"]);
    assert!(is_inflated(&inflated, "/shaders/b.wgsl"));
    assert!(!is_inflated(&inflated, "/shaders/c.wgsl"));
    assert_eq!(Error::IncludeRecursion.kind(), ErrorKind::Io);
    assert_eq!(Error::MissingInclude.kind(), ErrorKind::Io);
}

#[test]
fn texts_are_compared_by_their_bytes() {
    assert!(str_equals("lab", "lab"));
    assert!(!str_equals("lab", "la"));
    assert!(!str_equals("lab", "lac"));
    assert!(str_equals("", ""));
    assert!(str_equals("é漢", "é漢"));
    assert!(str_ends_with("a.png", ".png"));
    assert!(!str_ends_with("png", ".png"));
    assert!(str_ends_with("x", ""));
    assert!(bytes_equal(&[1, 2], &[1, 2]));
    assert!(!bytes_equal(&[1, 2], &[1, 3]));
    assert!(bytes_end_with(&[1, 2, 3], &[2, 3]));
    assert!(!bytes_end_with(&[1, 2, 3], &[1, 2]));
}

#[test]
fn colors_are_kept_in_ascending_order() {
    assert_eq!(key_of(&[1, 2, 3, 4]), 0x0102_0304);
    assert_eq!(key_of(&[255, 255, 255, 255]), u32::MAX);
    let mut sorted = vec![];
    assert!(insert_unique(&mut sorted, [5, 0, 0, 255]));
    assert!(insert_unique(&mut sorted, [1, 9, 9, 255]));
    assert!(insert_unique(&mut sorted, [1, 9, 9, 254]));
    assert!(!insert_unique(&mut sorted, [5, 0, 0, 255]));
    assert_eq!(sorted, vec![[1, 9, 9, 254], [1, 9, 9, 255], [5, 0, 0, 255]]);
    assert_eq!(lower_bound(&sorted, key_of(&[1, 9, 9, 255])), 1);
    assert_eq!(lower_bound(&sorted, 0), 0);
    assert_eq!(lower_bound(&sorted, u32::MAX), 3);

    let colors = vec![[9, 9, 9, 9], [1, 1, 1, 1], [9, 9, 9, 9], [0, 0, 0, 0]];
    let (unique, distinct) = sorted_unique(&colors);
    assert_eq!(unique, vec![[0, 0, 0, 0], [1, 1, 1, 1], [9, 9, 9, 9]]);
    assert!(!distinct);
    let (unique, distinct) = sorted_unique(&colors[1..].to_vec());
    assert_eq!(unique.len(), 3);
    assert!(distinct);
    let mut expected = colors.clone();
    expected.sort();
    expected.dedup();
    assert_eq!(sorted_unique(&colors).0, expected);
}
