use zeroclaw::config_layers::{
    chain_display, current, expand, expand_parsed, take_includes, write_outcome, Expansion,
    IncludeError, IncludeStep, Missing, SourceFile, INCLUDE_KEY,
};
use zeroclaw::toml_tree::deep_merge;

/// A file system in memory. Directories end in a slash.
struct Files {
    bodies: Vec<(String, Result<String, String>)>,
    handles: Vec<String>,
}

impl Files {
    fn new(bodies: &[(&str, &str)]) -> Self {
        Files {
            bodies: bodies
                .iter()
                .map(|(name, body)| (name.to_string(), Ok(body.to_string())))
                .collect(),
            handles: Vec::new(),
        }
    }

    fn handle(&mut self, path: &str) -> u64 {
        match self.handles.iter().position(|p| p == path) {
            Some(i) => i as u64,
            None => {
                self.handles.push(path.to_string());
                (self.handles.len() - 1) as u64
            }
        }
    }

    fn source(&mut self, path: &str) -> SourceFile {
        let dir = path.rfind('/').map_or("", |i| &path[..i + 1]);
        SourceFile {
            handle: self.handle(path),
            shown: path.to_string(),
            parent: Some(self.handle(dir)),
        }
    }

    fn resolve(&mut self, dir: u64, entry: &str) -> Result<SourceFile, Missing> {
        let target = format!("{}{}", self.handles[dir as usize], entry);
        if self.bodies.iter().any(|(name, _)| *name == target) {
            Ok(self.source(&target))
        } else {
            Err(Missing {
                target,
                cause: "No such file".to_string(),
            })
        }
    }

    fn read(&self, path: &str) -> Result<String, String> {
        self.bodies
            .iter()
            .find(|(name, _)| name == path)
            .map_or(Err("No such file".to_string()), |(_, body)| body.clone())
    }

    fn expand_text(&mut self, path: &str) -> Result<String, IncludeError> {
        let raw = self.read(path).unwrap();
        let root = match expand(&raw, path) {
            Expansion::Verbatim(text) => return Ok(text),
            Expansion::Layered(root) => root,
        };
        let file = self.source(path);
        let here = self.handle("./");
        let mut run = root.start(file, here)?;
        loop {
            match run.next() {
                IncludeStep::Finished(text) => return text,
                IncludeStep::Resolve(asked) => {
                    let found = self.resolve(asked.dir(), asked.entry());
                    let asked = asked.resolved(found)?;
                    let text = self.read(&asked.file().shown);
                    run = asked.read(text)?;
                }
            }
        }
    }

    fn expand_file(&mut self, path: &str) -> Result<toml::Table, String> {
        match self.expand_text(path) {
            Ok(text) => Ok(text.parse().unwrap()),
            Err(e) => Err(e.message()),
        }
    }
}

fn table(text: &str) -> toml::Table {
    text.parse().unwrap()
}

fn source(handle: u64, shown: &str) -> SourceFile {
    SourceFile {
        handle,
        shown: shown.to_string(),
        parent: None,
    }
}

#[test]
fn no_include_key_returns_contents_verbatim() {
    let body = "# comment kept\nschema_version = 3\n\n[agents.a]\nname = \"a\"\n";
    assert_eq!(
        Files::new(&[("config.toml", body)])
            .expand_text("config.toml")
            .unwrap(),
        body
    );
}

#[test]
fn including_file_wins_over_include() {
    let mut files = Files::new(&[
        (
            "fleet.toml",
            "schema_version = 3\nname = \"fleet\"\nshared_only = \"kept\"\n",
        ),
        (
            "config.toml",
            "include = [\"fleet.toml\"]\nname = \"bot\"\n",
        ),
    ]);

    let merged = files.expand_file("config.toml").unwrap();
    assert_eq!(merged["name"].as_str(), Some("bot"));
    assert_eq!(merged["shared_only"].as_str(), Some("kept"));
    assert_eq!(merged["schema_version"].as_integer(), Some(3));
    assert!(
        !merged.contains_key(INCLUDE_KEY),
        "include key must be stripped"
    );
}

#[test]
fn later_include_wins_over_earlier() {
    let mut files = Files::new(&[
        ("a.toml", "who = \"a\"\nfrom_a = true\n"),
        ("b.toml", "who = \"b\"\nfrom_b = true\n"),
        ("config.toml", "include = [\"a.toml\", \"b.toml\"]\n"),
    ]);

    let merged = files.expand_file("config.toml").unwrap();
    assert_eq!(merged["who"].as_str(), Some("b"));
    assert_eq!(merged["from_a"].as_bool(), Some(true));
    assert_eq!(merged["from_b"].as_bool(), Some(true));
}

#[test]
fn tables_deep_merge_while_scalars_and_arrays_replace() {
    let mut files = Files::new(&[
        (
            "fleet.toml",
            r#"
[security]
autonomy_level = "supervised"
allowed_commands = ["ls", "cat"]

[security.rate_limit]
per_minute = 10
per_hour = 100

[observability]
backend = "otlp"
"#,
        ),
        (
            "config.toml",
            r#"
include = ["fleet.toml"]

[security]
allowed_commands = ["git"]

[security.rate_limit]
per_minute = 99
"#,
        ),
    ]);

    let merged = files.expand_file("config.toml").unwrap();
    let security = merged["security"].as_table().unwrap();
    // Sibling key from the fragment survives the deep merge.
    assert_eq!(security["autonomy_level"].as_str(), Some("supervised"));
    // Arrays replace wholesale — no concatenation.
    let commands = security["allowed_commands"].as_array().unwrap();
    assert_eq!(commands.len(), 1);
    assert_eq!(commands[0].as_str(), Some("git"));
    // Nested table merges: overridden scalar wins, sibling is kept.
    let rate_limit = security["rate_limit"].as_table().unwrap();
    assert_eq!(rate_limit["per_minute"].as_integer(), Some(99));
    assert_eq!(rate_limit["per_hour"].as_integer(), Some(100));
    // Untouched fragment table survives whole.
    assert_eq!(
        merged["observability"].as_table().unwrap()["backend"].as_str(),
        Some("otlp")
    );
}

#[test]
fn paths_resolve_relative_to_the_including_file() {
    // The nested fragment's own include is relative to `shared/`, not to
    // the root config's directory.
    let mut files = Files::new(&[
        ("shared/fleet.toml", "layer = \"fleet\"\n"),
        (
            "shared/base.toml",
            "include = [\"fleet.toml\"]\nlayer = \"base\"\nbase_only = true\n",
        ),
        ("config.toml", "include = [\"shared/base.toml\"]\n"),
    ]);

    let merged = files.expand_file("config.toml").unwrap();
    assert_eq!(merged["layer"].as_str(), Some("base"));
    assert_eq!(merged["base_only"].as_bool(), Some(true));
}

#[test]
fn nested_includes_expand_depth_first() {
    let mut files = Files::new(&[
        ("deep.toml", "tier = \"deep\"\nd = true\n"),
        (
            "mid.toml",
            "include = [\"deep.toml\"]\ntier = \"mid\"\nm = true\n",
        ),
        (
            "config.toml",
            "include = [\"mid.toml\"]\ntier = \"root\"\n",
        ),
    ]);

    let merged = files.expand_file("config.toml").unwrap();
    assert_eq!(merged["tier"].as_str(), Some("root"));
    assert_eq!(merged["m"].as_bool(), Some(true));
    assert_eq!(merged["d"].as_bool(), Some(true));
}

#[test]
fn diamond_include_is_allowed() {
    let mut files = Files::new(&[
        ("base.toml", "base = true\n"),
        (
            "left.toml",
            "include = [\"base.toml\"]\nleft = true\n",
        ),
        (
            "right.toml",
            "include = [\"base.toml\"]\nright = true\n",
        ),
        (
            "config.toml",
            "include = [\"left.toml\", \"right.toml\"]\n",
        ),
    ]);

    let merged = files.expand_file("config.toml").unwrap();
    assert_eq!(merged["base"].as_bool(), Some(true));
    assert_eq!(merged["left"].as_bool(), Some(true));
    assert_eq!(merged["right"].as_bool(), Some(true));
}

#[test]
fn cycle_is_an_error() {
    let mut files = Files::new(&[
        ("a.toml", "include = [\"b.toml\"]\n"),
        ("b.toml", "include = [\"a.toml\"]\n"),
        ("config.toml", "include = [\"a.toml\"]\n"),
    ]);

    let err = files.expand_file("config.toml").unwrap_err();
    assert!(err.contains("include cycle"), "{err}");
    assert!(err.contains("a.toml"), "{err}");
    assert_eq!(
        err,
        "Config include cycle: config.toml -> a.toml -> b.toml -> a.toml"
    );
}

#[test]
fn self_include_is_a_cycle() {
    let mut files = Files::new(&[("config.toml", "include = [\"config.toml\"]\n")]);

    let err = files.expand_file("config.toml").unwrap_err();
    assert!(err.contains("include cycle"), "{err}");
}

#[test]
fn missing_include_is_a_hard_error() {
    let mut files = Files::new(&[("config.toml", "include = [\"nope.toml\"]\n")]);

    let err = files.expand_file("config.toml").unwrap_err();
    assert!(err.contains("nope.toml"), "{err}");
    assert!(err.contains("does not resolve to a readable file"), "{err}");
    assert_eq!(
        err,
        "Config include \"nope.toml\" from config.toml does not resolve to a readable file at nope.toml"
    );
}

#[test]
fn malformed_include_is_a_hard_error() {
    let mut files = Files::new(&[
        ("broken.toml", "this is not = = toml\n"),
        ("config.toml", "include = [\"broken.toml\"]\n"),
    ]);

    let err = files.expand_file("config.toml").unwrap_err();
    assert!(err.contains("Failed to parse config include"), "{err}");
}

#[test]
fn non_array_include_is_an_error() {
    let mut files = Files::new(&[("config.toml", "include = \"fleet.toml\"\n")]);

    let err = files.expand_file("config.toml").unwrap_err();
    assert!(err.contains("must be an array of paths"), "{err}");
}

#[test]
fn malformed_root_is_left_to_the_caller() {
    let body = "include = [\"fleet.toml\"]\nbroken = = \n";
    assert_eq!(
        Files::new(&[("config.toml", body)])
            .expand_text("config.toml")
            .unwrap(),
        body
    );
}

#[test]
fn entries_that_are_no_strings_are_an_error() {
    let mut files = Files::new(&[("config.toml", "include = [\"a.toml\", 3]\n")]);
    let err = files.expand_text("config.toml").unwrap_err();
    assert!(matches!(err, IncludeError::NotPaths { .. }));
    assert_eq!(
        err.message(),
        "`include` in config.toml must contain only path strings"
    );
}

#[test]
fn a_list_in_a_fragment_is_checked_too() {
    let mut files = Files::new(&[
        ("a.toml", "include = 1\n"),
        ("config.toml", "include = [\"a.toml\"]\n"),
    ]);
    let err = files.expand_text("config.toml").unwrap_err();
    assert!(matches!(err, IncludeError::NotAnArray { .. }));
    assert_eq!(err.message(), "`include` in a.toml must be an array of paths");
}

#[test]
fn an_unreadable_fragment_is_an_error() {
    let mut files = Files::new(&[("config.toml", "include = [\"secret.toml\"]\n")]);
    files
        .bodies
        .push(("secret.toml".to_string(), Err("denied".to_string())));
    match files.expand_text("config.toml").unwrap_err() {
        IncludeError::Unreadable { path, cause } => {
            assert_eq!(path, "secret.toml");
            assert_eq!(cause, "denied");
        }
        other => panic!("{other:?}"),
    }
}

#[test]
fn every_error_says_what_happened() {
    let e = IncludeError::Unreadable {
        path: "/x".to_string(),
        cause: "c".to_string(),
    };
    assert_eq!(e.message(), "Failed to read config include /x");
    let e = IncludeError::Malformed {
        path: "/x".to_string(),
        parse_error: "= =".parse::<toml::Table>().unwrap_err(),
    };
    assert_eq!(e.message(), "Failed to parse config include /x");
    let unrepresentable = toml::to_string(&3).unwrap_err();
    let e = write_outcome("/x".to_string(), Err(unrepresentable)).unwrap_err();
    assert!(matches!(e, IncludeError::Unwritable { .. }));
    assert_eq!(e.message(), "Failed to re-serialize /x after include expansion");
    assert_eq!(write_outcome("/x".to_string(), Ok("a = 1\n".to_string())).unwrap(), "a = 1\n");
}

#[test]
fn an_empty_list_still_strips_the_key() {
    let mut files = Files::new(&[("config.toml", "include = []\n# gone\na = 1\n")]);
    assert_eq!(files.expand_text("config.toml").unwrap(), "a = 1\n");
}

#[test]
fn expanding_an_expanded_file_changes_nothing() {
    let mut files = Files::new(&[
        ("fleet.toml", "[t]\nb = 2\n"),
        ("config.toml", "include = [\"fleet.toml\"]\na = 1\n[t]\nc = 3\n"),
    ]);
    let once = files.expand_text("config.toml").unwrap();
    assert_eq!(once, "a = 1\n\n[t]\nb = 2\nc = 3\n");
    match expand(&once, "config.toml") {
        Expansion::Verbatim(again) => assert_eq!(again, once),
        other => panic!("{other:?}"),
    }
}

#[test]
fn a_nested_key_of_the_same_name_is_kept() {
    let body = "[web]\ninclude = [\"x\"]\n";
    match expand(body, "config.toml") {
        Expansion::Verbatim(text) => assert_eq!(text, body),
        other => panic!("{other:?}"),
    }
}

#[test]
fn parsed_contents_decide_what_is_to_be_done() {
    match expand_parsed("whatever", Ok(table("include = []")), "/c") {
        Expansion::Layered(root) => {
            assert_eq!(root.path, "/c");
            assert!(root.table.contains_key("include"));
        }
        other => panic!("{other:?}"),
    }
    match expand_parsed("whatever", Ok(table("a = 1")), "/c") {
        Expansion::Verbatim(text) => assert_eq!(text, "whatever"),
        other => panic!("{other:?}"),
    }
    let e = "= =".parse::<toml::Table>().unwrap_err();
    match expand_parsed("whatever", Err(e), "/c") {
        Expansion::Verbatim(text) => assert_eq!(text, "whatever"),
        other => panic!("{other:?}"),
    }
}

#[test]
fn a_root_without_a_directory_is_expanded_from_here() {
    let Expansion::Layered(root) = expand("include = [\"a.toml\"]", "config.toml") else {
        panic!("there is a list");
    };
    let run = root.start(source(1, "config.toml"), 77).unwrap();
    match run.next() {
        IncludeStep::Resolve(asked) => {
            assert_eq!(asked.dir(), 77);
            assert_eq!(asked.entry(), "a.toml");
            // Nor does the fragment have one: its own paths stay relative to
            // the same directory.
            let asked = asked.resolved(Ok(source(2, "a.toml"))).unwrap();
            let run = asked.parsed(Ok(table("include = [\"b.toml\"]"))).unwrap();
            match run.next() {
                IncludeStep::Resolve(asked) => {
                    assert_eq!(asked.dir(), 77);
                    assert_eq!(asked.entry(), "b.toml");
                }
                other => panic!("{other:?}"),
            }
        }
        other => panic!("{other:?}"),
    }
}

#[test]
fn taking_the_list_removes_the_key() {
    let mut t = table("include = [\"a\", \"b\"]\nx = 1\n");
    assert_eq!(take_includes(&mut t, &[]).unwrap(), vec!["a".to_string(), "b".to_string()]);
    assert_eq!(t, table("x = 1\n"));
    assert!(take_includes(&mut t, &[]).unwrap().is_empty());
    assert_eq!(t, table("x = 1\n"));

    let mut t = table("include = {}\n");
    let e = take_includes(&mut t, &[]).unwrap_err();
    assert_eq!(e.message(), "`include` in config must be an array of paths");
}

#[test]
fn chains_are_shown_with_arrows() {
    let chain = vec![source(1, "/a"), source(2, "/b")];
    assert_eq!(chain_display(&chain), "/a -> /b");
    assert_eq!(chain_display(&[]), "");
    assert_eq!(current(&chain), "/b");
    assert_eq!(current(&[]), "config");
}

#[test]
fn merging_recurses_into_tables_and_replaces_the_rest() {
    let mut dst = table("a = 1\nb = [1, 2]\n[t]\nx = 1\ny = 2\n[t.u]\np = 1\n[s]\nq = 1\n");
    let src = table("a = 2\nb = [3]\ns = 5\nnew = 6\n[t]\nx = 9\n[t.u]\nr = 2\n");
    deep_merge(&mut dst, src);
    assert_eq!(
        dst,
        table("a = 2\nb = [3]\ns = 5\nnew = 6\n[t]\nx = 9\ny = 2\n[t.u]\np = 1\nr = 2\n")
    );
}

#[test]
fn a_table_replaces_a_scalar() {
    let mut dst = table("a = 1\n");
    deep_merge(&mut dst, table("[a]\nx = 1\n"));
    assert_eq!(dst, table("[a]\nx = 1\n"));
}

#[test]
fn merging_the_same_overlay_again_changes_nothing() {
    let overlay = table("a = 1\n[t]\nx = [1]\n[t.u]\n");
    let mut dst = table("[t]\ny = 1\nu = 3\n");
    deep_merge(&mut dst, overlay.clone());
    let once = dst.clone();
    deep_merge(&mut dst, overlay.clone());
    assert_eq!(dst, once);
    let mut same = overlay.clone();
    deep_merge(&mut same, overlay.clone());
    assert_eq!(same, overlay);
}

#[test]
fn one_bad_fragment_deep_down_fails_the_whole() {
    let good = [
        ("deep/c.toml", "c = 1\n"),
        ("deep/b.toml", "include = [\"c.toml\"]\nb = 1\n"),
        ("a.toml", "include = [\"deep/b.toml\"]\na = 1\n"),
        ("z.toml", "z = 1\n"),
        ("config.toml", "include = [\"z.toml\", \"a.toml\"]\n"),
    ];
    assert_eq!(
        Files::new(&good).expand_text("config.toml").unwrap(),
        "a = 1\nb = 1\nc = 1\nz = 1\n"
    );
    for bad in ["= =", "include = 1", "include = [2]", "include = [\"nope\"]", "include = [\"b.toml\"]"] {
        let mut files = good;
        files[0].1 = bad;
        assert!(Files::new(&files).expand_text("config.toml").is_err(), "{bad}");
    }
}
