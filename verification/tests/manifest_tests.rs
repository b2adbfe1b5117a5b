use kur::classify::{classify, kind_tag_exec, BucketKind};
use kur::format::{fmt, fmt_packages};
use kur::install::{names_with_tag, platform_packages, Platform};
use kur::package::Package;
use kur::parse::get_packages;
use kur::validate::{check_duplicates, check_packages};

fn parse_str(text: &str) -> Vec<Package> {
    get_packages(&text.as_bytes().to_vec())
}

#[test]
fn parse_sorts_records_by_name() {
    let packages = parse_str("zeta #brew\nalpha #cargo\n");
    assert_eq!(packages.len(), 2);
    assert_eq!(packages[0].name, b"alpha".to_vec());
    assert_eq!(packages[0].line_no, 1);
    assert_eq!(packages[0].tags, vec![b"#cargo".to_vec()]);
    assert_eq!(packages[1].name, b"zeta".to_vec());
    assert_eq!(packages[1].line_no, 0);
    assert_eq!(packages[1].tags, vec![b"#brew".to_vec()]);
}

#[test]
fn classify_single_tag_records() {
    let packages = parse_str("zeta #brew\nalpha #cargo\n");
    let buckets = classify(&packages);
    assert_eq!(buckets.len(), 2);
    assert_eq!(buckets[0].kind, BucketKind::Brew);
    assert_eq!(buckets[0].packages.len(), 1);
    assert_eq!(buckets[0].packages[0].name, b"zeta".to_vec());
    assert_eq!(buckets[1].kind, BucketKind::Cargo);
    assert_eq!(buckets[1].packages.len(), 1);
    assert_eq!(buckets[1].packages[0].name, b"alpha".to_vec());
}

#[test]
fn multi_tag_record_goes_to_common_only() {
    let packages = parse_str("foo #ubuntu #cargo\n");
    assert_eq!(packages.len(), 1);
    assert_eq!(packages[0].tags, vec![b"#cargo".to_vec(), b"#ubuntu".to_vec()]);
    let buckets = classify(&packages);
    assert_eq!(buckets.len(), 1);
    assert_eq!(buckets[0].kind, BucketKind::Common);
    assert_eq!(buckets[0].packages.len(), 1);
    assert_eq!(buckets[0].packages[0].name, b"foo".to_vec());
}

#[test]
fn duplicate_name_reports_both_lines() {
    let packages = parse_str("bar\nbar #cargo\n");
    let err = check_duplicates(&packages).expect("duplicate expected");
    assert_eq!(err.name, b"bar".to_vec());
    assert_eq!(err.first_line, 0);
    assert_eq!(err.second_line, 1);
}

#[test]
fn check_packages_reports_duplicates_too() {
    let packages = parse_str("x #pip\ny\nx\n");
    let err = check_packages(&packages).expect("duplicate expected");
    assert_eq!(err.name, b"x".to_vec());
    assert_eq!(err.first_line, 0);
    assert_eq!(err.second_line, 2);
}

#[test]
fn first_collision_wins_among_three_duplicates() {
    let packages = parse_str("z\nz #cargo\nz #pip\n");
    let err = check_duplicates(&packages).expect("duplicate expected");
    assert_eq!(err.name, b"z".to_vec());
    assert_eq!(err.first_line, 0);
    assert_eq!(err.second_line, 1);
}

#[test]
fn unique_names_pass_validation() {
    let packages = parse_str("a #pip\nb #cargo\nc\n");
    assert!(check_packages(&packages).is_none());
    assert!(check_duplicates(&packages).is_none());
}

#[test]
fn formatting_pads_to_longest_name_plus_four() {
    let packages = vec![
        Package { line_no: 0, name: b"a".to_vec(), tags: vec![] },
        Package { line_no: 1, name: b"longname".to_vec(), tags: vec![b"#cargo".to_vec()] },
    ];
    let lines = fmt_packages(&packages);
    assert_eq!(lines.len(), 2);
    assert_eq!(lines[0], b"a           ".to_vec());
    assert_eq!(lines[1], b"longname    #cargo".to_vec());
}

#[test]
fn fmt_renders_canonical_sections() {
    let packages = parse_str("zeta #brew\nalpha #cargo\nfoo #ubuntu #cargo\n");
    let out = fmt(&packages);
    let expected = "# Common Packages\nfoo    #cargo #ubuntu\n\n# Brew Packages\nzeta    #brew\n\n# Cargo Packages\nalpha    #cargo\n";
    assert_eq!(out, expected.as_bytes().to_vec());
}

#[test]
fn reformatting_canonical_output_is_byte_identical() {
    let first = fmt(&parse_str("zeta #brew\nalpha #cargo\nfoo #ubuntu #cargo\nsolo\nnoise x #pip\n"));
    let text = String::from_utf8(first.clone()).unwrap();
    let second = fmt(&parse_str(&text));
    assert_eq!(first, second);
}

#[test]
fn untagged_record_is_parsed_but_never_emitted() {
    let packages = parse_str("solo\n");
    assert_eq!(packages.len(), 1);
    assert_eq!(packages[0].tags.len(), 0);
    assert_eq!(classify(&packages).len(), 0);
    assert_eq!(fmt(&packages), Vec::<u8>::new());
}

#[test]
fn comments_and_blank_lines_are_skipped() {
    let packages = parse_str("# a comment\n\n   \nname #pip\n");
    assert_eq!(packages.len(), 1);
    assert_eq!(packages[0].name, b"name".to_vec());
    assert_eq!(packages[0].line_no, 3);
}

#[test]
fn non_tag_tokens_after_the_name_are_ignored() {
    let packages = parse_str("name xyz #pip\n");
    assert_eq!(packages.len(), 1);
    assert_eq!(packages[0].tags, vec![b"#pip".to_vec()]);
}

#[test]
fn tags_are_sorted_but_not_deduplicated() {
    let packages = parse_str("n #pip #cargo\nm #a #a\n");
    assert_eq!(packages[1].tags, vec![b"#cargo".to_vec(), b"#pip".to_vec()]);
    assert_eq!(packages[0].tags, vec![b"#a".to_vec(), b"#a".to_vec()]);
    // two equal tags still count as multi-tag: the record is a common one
    let buckets = classify(&packages);
    assert_eq!(buckets.len(), 1);
    assert_eq!(buckets[0].kind, BucketKind::Common);
    assert_eq!(buckets[0].packages.len(), 2);
    assert_eq!(buckets[0].packages[0].name, b"m".to_vec());
    assert_eq!(buckets[0].packages[1].name, b"n".to_vec());
}

#[test]
fn unknown_single_tag_record_is_in_no_bucket() {
    let packages = parse_str("q #mystery\n");
    assert_eq!(classify(&packages).len(), 0);
    assert_eq!(fmt(&packages), Vec::<u8>::new());
}

#[test]
fn empty_manifest_yields_no_records() {
    let packages = parse_str("");
    assert_eq!(packages.len(), 0);
    assert!(check_packages(&packages).is_none());
    assert_eq!(fmt(&packages), Vec::<u8>::new());
}

#[test]
fn install_filter_uses_tag_membership_not_exclusivity() {
    let packages = parse_str("x #ubuntu #cargo\ny #ubuntu\nz #pip\n");
    let tag = kind_tag_exec(BucketKind::Ubuntu);
    let names = names_with_tag(&packages, &tag);
    assert_eq!(names, vec![b"x".to_vec(), b"y".to_vec()]);
}

#[test]
fn platform_packages_selects_the_platform_tag() {
    let packages = parse_str("x #brew\ny #ubuntu\nz #alpine\n");
    let brew = platform_packages(Platform::MacOs, &packages).unwrap();
    assert_eq!(brew, vec![b"x".to_vec()]);
    let ubuntu = platform_packages(Platform::Ubuntu, &packages).unwrap();
    assert_eq!(ubuntu, vec![b"y".to_vec()]);
    let alpine = platform_packages(Platform::Alpine, &packages).unwrap();
    assert_eq!(alpine, vec![b"z".to_vec()]);
}

#[test]
fn unsupported_platform_gets_no_packages() {
    let packages = parse_str("x #brew\n");
    assert!(platform_packages(Platform::Unsupported, &packages).is_none());
}

#[test]
fn bucket_headings_appear_in_fixed_order() {
    let packages = parse_str("a #alpine\nb #ubuntu\nc #brew\nd #cargo\ne #pip\nf #pip #cargo\n");
    let buckets = classify(&packages);
    let kinds: Vec<BucketKind> = buckets.iter().map(|b| b.kind).collect();
    assert_eq!(
        kinds,
        vec![
            BucketKind::Common,
            BucketKind::Alpine,
            BucketKind::Ubuntu,
            BucketKind::Brew,
            BucketKind::Cargo,
            BucketKind::Pip
        ]
    );
    let out = String::from_utf8(fmt(&packages)).unwrap();
    let expected = "# Common Packages\nf    #cargo #pip\n\n# Alpine Packages\na    #alpine\n\n# Ubuntu Packages\nb    #ubuntu\n\n# Brew Packages\nc    #brew\n\n# Cargo Packages\nd    #cargo\n\n# Pip Packages\ne    #pip\n";
    assert_eq!(out, expected);
}

#[test]
fn equal_names_keep_line_order_after_sorting() {
    let packages = parse_str("b #pip\na #x\na #y\n");
    assert_eq!(packages[0].name, b"a".to_vec());
    assert_eq!(packages[0].line_no, 1);
    assert_eq!(packages[1].name, b"a".to_vec());
    assert_eq!(packages[1].line_no, 2);
    assert_eq!(packages[2].name, b"b".to_vec());
}

#[test]
fn leading_and_trailing_whitespace_is_trimmed() {
    let packages = parse_str("  name #pip  \n\tother #cargo\t\n");
    assert_eq!(packages[0].name, b"name".to_vec());
    assert_eq!(packages[0].tags, vec![b"#pip".to_vec()]);
    assert_eq!(packages[1].name, b"other".to_vec());
    assert_eq!(packages[1].tags, vec![b"#cargo".to_vec()]);
}
