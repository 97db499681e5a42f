use mukti_redirects::model::{
    Alias, Location, Project, ProjectEntry, RangeData, RangeEntry, ReleaseJson, VersionData,
    VersionEntry,
};
use mukti_redirects::render::{generate_redirects, EngineError, RedirectFlavor};

fn loc(target: &str, format: &str, url: &str) -> Location {
    Location { target: target.to_string(), format: format.to_string(), url: url.to_string() }
}

fn version(id: &str, release_url: &str, locations: Vec<Location>) -> VersionEntry {
    VersionEntry {
        version: id.to_string(),
        data: VersionData { release_url: release_url.to_string(), locations },
    }
}

/// One range `1` (non-prerelease, latest 1.2.0, one linux tar.gz artifact),
/// declared as the project's latest range.
fn example_tree() -> ReleaseJson {
    ReleaseJson {
        projects: vec![ProjectEntry {
            name: "tool".to_string(),
            project: Project {
                latest: Some("1".to_string()),
                ranges: vec![RangeEntry {
                    range: "1".to_string(),
                    data: RangeData {
                        is_prerelease: false,
                        latest: "1.2.0".to_string(),
                        versions: vec![version(
                            "1.2.0",
                            "https://dl/1.2.0/release",
                            vec![loc("linux", "tar.gz", "https://dl/1.2.0/linux.tar.gz")],
                        )],
                    },
                }],
            },
        }],
    }
}

fn example_aliases() -> Vec<Alias> {
    vec![Alias {
        target: "linux".to_string(),
        format: "tar.gz".to_string(),
        alias: "linux-x64".to_string(),
    }]
}

#[test]
fn plain_mode_example_tree() {
    let json = example_tree();
    let lines = generate_redirects(
        &json,
        &example_aliases(),
        RedirectFlavor::Netlify,
        &"/dl".to_string(),
    )
    .unwrap();
    let expected = vec![
        "# Generated by mukti with redirect flavor Netlify",
        "",
        "/dl/latest/release https://dl/1.2.0/release 302",
        "/dl/latest/linux.tar.gz https://dl/1.2.0/linux.tar.gz 302",
        "/dl/latest/linux-x64 https://dl/1.2.0/linux.tar.gz 302",
        "/dl/1/release https://dl/1.2.0/release 302",
        "/dl/1/linux.tar.gz https://dl/1.2.0/linux.tar.gz 302",
        "/dl/1/linux-x64 https://dl/1.2.0/linux.tar.gz 302",
        "/dl/1.2.0/release https://dl/1.2.0/release 302",
        "/dl/1.2.0/linux.tar.gz https://dl/1.2.0/linux.tar.gz 302",
        "/dl/1.2.0/linux-x64 https://dl/1.2.0/linux.tar.gz 302",
    ];
    assert_eq!(lines, expected);
}

#[test]
fn trailing_slashes_are_stripped_from_prefix() {
    let json = example_tree();
    let a = generate_redirects(&json, &example_aliases(), RedirectFlavor::Netlify, &"/dl".to_string())
        .unwrap();
    let b = generate_redirects(
        &json,
        &example_aliases(),
        RedirectFlavor::Netlify,
        &"/dl//".to_string(),
    )
    .unwrap();
    assert_eq!(a, b);
}

/// Three versions sharing one rule shape collapse into one wildcard per rule
/// kind, with no literal duplicates left.
#[test]
fn wildcard_derivation_example() {
    let json = ReleaseJson {
        projects: vec![ProjectEntry {
            name: "tool".to_string(),
            project: Project {
                latest: None,
                ranges: vec![RangeEntry {
                    range: "1".to_string(),
                    data: RangeData {
                        is_prerelease: true,
                        latest: "1.2.0".to_string(),
                        versions: vec![
                            version(
                                "1.0.0",
                                "https://dl/1.0.0/release",
                                vec![loc("linux", "tar.gz", "https://dl/1.0.0/linux.tar.gz")],
                            ),
                            version(
                                "1.1.0",
                                "https://dl/1.1.0/release",
                                vec![loc("linux", "tar.gz", "https://dl/1.1.0/linux.tar.gz")],
                            ),
                            version(
                                "1.2.0",
                                "https://dl/1.2.0/release",
                                vec![loc("linux", "tar.gz", "https://dl/1.2.0/linux.tar.gz")],
                            ),
                        ],
                    },
                }],
            },
        }],
    };
    let lines =
        generate_redirects(&json, &Vec::new(), RedirectFlavor::Cloudflare, &"/dl".to_string())
            .unwrap();
    let expected = vec![
        "# Generated by mukti with redirect flavor Cloudflare",
        "",
        "/dl/:version/release https://dl/:version/release 302",
        "/dl/:version/linux.tar.gz https://dl/:version/linux.tar.gz 302",
    ];
    assert_eq!(lines, expected);
}

/// In compressed output every literal line stands before every wildcard line.
#[test]
fn literals_precede_wildcards() {
    let json = example_tree();
    let lines = generate_redirects(
        &json,
        &example_aliases(),
        RedirectFlavor::Cloudflare,
        &"/dl".to_string(),
    )
    .unwrap();
    let mut seen_wildcard = false;
    for line in lines.iter().skip(2) {
        if line.contains(":version") {
            seen_wildcard = true;
        } else {
            assert!(!seen_wildcard, "literal line after a wildcard line: {line}");
        }
    }
    assert!(seen_wildcard);
}

/// Compression drops no source path and adds none: expanding each wildcard
/// back over the concrete versions reproduces exactly the plain-mode sources.
#[test]
fn compression_covers_all_sources() {
    let json = example_tree();
    let aliases = example_aliases();
    let plain =
        generate_redirects(&json, &aliases, RedirectFlavor::Netlify, &"/dl".to_string()).unwrap();
    let compressed =
        generate_redirects(&json, &aliases, RedirectFlavor::Cloudflare, &"/dl".to_string())
            .unwrap();
    let mut plain_sources: Vec<String> = plain
        .iter()
        .skip(2)
        .map(|l| l.split(' ').next().unwrap().to_string())
        .collect();
    let versions = ["1.2.0"];
    let mut compressed_sources: Vec<String> = Vec::new();
    for line in compressed.iter().skip(2) {
        let source = line.split(' ').next().unwrap();
        if source.contains(":version") {
            for v in versions {
                compressed_sources.push(source.replace(":version", v));
            }
        } else {
            compressed_sources.push(source.to_string());
        }
    }
    plain_sources.sort();
    compressed_sources.sort();
    assert_eq!(plain_sources, compressed_sources);
}

/// Running the engine twice on identical inputs gives byte-identical output,
/// in both flavors.
#[test]
fn engine_is_idempotent() {
    let json = example_tree();
    let aliases = example_aliases();
    for flavor in [RedirectFlavor::Netlify, RedirectFlavor::Cloudflare] {
        let a = generate_redirects(&json, &aliases, flavor, &"/dl".to_string()).unwrap();
        let b = generate_redirects(&json, &aliases, flavor, &"/dl".to_string()).unwrap();
        assert_eq!(a, b);
    }
}

/// For rules of one version, the Release rule's line comes before the Alias
/// rule's line in plain output.
#[test]
fn release_line_before_alias_line() {
    let json = example_tree();
    let lines = generate_redirects(
        &json,
        &example_aliases(),
        RedirectFlavor::Netlify,
        &"/dl".to_string(),
    )
    .unwrap();
    let release = lines.iter().position(|l| l == "/dl/1.2.0/release https://dl/1.2.0/release 302");
    let alias = lines
        .iter()
        .position(|l| l == "/dl/1.2.0/linux-x64 https://dl/1.2.0/linux.tar.gz 302");
    assert!(release.unwrap() < alias.unwrap());
}

#[test]
fn zero_projects_is_an_error() {
    let json = ReleaseJson { projects: vec![] };
    let err = generate_redirects(&json, &Vec::new(), RedirectFlavor::Netlify, &"/dl".to_string())
        .unwrap_err();
    assert!(matches!(err, EngineError::ProjectCount(0)));
}

#[test]
fn two_projects_is_an_error() {
    let one = example_tree().projects.remove(0);
    let two = example_tree().projects.remove(0);
    let json = ReleaseJson { projects: vec![one, two] };
    let err = generate_redirects(&json, &Vec::new(), RedirectFlavor::Netlify, &"/dl".to_string())
        .unwrap_err();
    assert!(matches!(err, EngineError::ProjectCount(2)));
}

/// An alias whose (target, format) pair matches no location produces no rule.
#[test]
fn unmatched_alias_produces_no_rule() {
    let json = example_tree();
    let aliases = vec![Alias {
        target: "mac".to_string(),
        format: "tar.gz".to_string(),
        alias: "mac-arm".to_string(),
    }];
    let lines =
        generate_redirects(&json, &aliases, RedirectFlavor::Netlify, &"/dl".to_string()).unwrap();
    assert!(lines.iter().all(|l| !l.contains("mac-arm")));
    assert_eq!(lines.len(), 2 + 6);
}
