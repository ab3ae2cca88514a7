//! The analysis configuration: the two expected-outcome strings and the
//! ordered table of literal finding signatures.

use vstd::prelude::*;

use crate::order::str_eq;

verus! {

/// One literal signature: a line matches when every fragment is a substring
/// of that line.
pub struct Target {
    pub all: Vec<String>,
}

impl View for Target {
    type V = Seq<Seq<char>>;

    open spec fn view(&self) -> Seq<Seq<char>> {
        self.all.deep_view()
    }
}

impl DeepView for Target {
    type V = Seq<Seq<char>>;

    open spec fn deep_view(&self) -> Seq<Seq<char>> {
        self.view()
    }
}

/// One finding name with its alternative literal signatures: the name is
/// found on a line when any of the alternatives matches it.
pub struct SignatureEntry {
    pub name: String,
    pub alternatives: Vec<Target>,
}

impl View for SignatureEntry {
    type V = (Seq<char>, Seq<Seq<Seq<char>>>);

    open spec fn view(&self) -> (Seq<char>, Seq<Seq<Seq<char>>>) {
        (self.name@, self.alternatives.deep_view())
    }
}

impl DeepView for SignatureEntry {
    type V = (Seq<char>, Seq<Seq<Seq<char>>>);

    open spec fn deep_view(&self) -> (Seq<char>, Seq<Seq<Seq<char>>>) {
        self.view()
    }
}

/// The analysis configuration.
pub struct Config {
    pub crate_result: String,
    pub run_result: String,
    pub targets: Vec<SignatureEntry>,
}

/// The signature table after adding one alternative for `name`: an existing
/// entry (the first with that name) gains the alternative, a new name is
/// appended at the end.
pub open spec fn with_target(
    s: Seq<(Seq<char>, Seq<Seq<Seq<char>>>)>,
    name: Seq<char>,
    t: Seq<Seq<char>>,
) -> Seq<(Seq<char>, Seq<Seq<Seq<char>>>)>
    decreases s.len(),
{
    if s.len() == 0 {
        seq![(name, seq![t])]
    } else if s[0].0 == name {
        seq![(s[0].0, s[0].1.push(t))] + s.drop_first()
    } else {
        seq![s[0]] + with_target(s.drop_first(), name, t)
    }
}

/// Where the scan stops determines the shape of the extended table.
proof fn lemma_with_target_at(
    s: Seq<(Seq<char>, Seq<Seq<Seq<char>>>)>,
    name: Seq<char>,
    t: Seq<Seq<char>>,
    idx: int,
)
    requires
        0 <= idx <= s.len(),
        forall|j: int| 0 <= j < idx ==> s[j].0 != name,
    ensures
        idx < s.len() && s[idx].0 == name ==> with_target(s, name, t) == s.update(
            idx,
            (name, s[idx].1.push(t)),
        ),
        idx == s.len() && (forall|j: int| 0 <= j < s.len() ==> s[j].0 != name) ==> with_target(
            s,
            name,
            t,
        ) == s.push((name, seq![t])),
    decreases idx + 1,
{
    if idx == 0 {
        if s.len() == 0 {
            assert(with_target(s, name, t) =~= s.push((name, seq![t])));
        } else if s[0].0 == name {
            assert(with_target(s, name, t) =~= s.update(0, (name, s[0].1.push(t))));
        }
    } else {
        let s1 = s.drop_first();
        assert(forall|j: int| 0 <= j < idx - 1 ==> #[trigger] s1[j].0 == s[j + 1].0);
        lemma_with_target_at(s1, name, t, idx - 1);
        assert(s[0].0 != name);
        assert(with_target(s, name, t) == seq![s[0]] + with_target(s1, name, t));
        if idx < s.len() && s[idx].0 == name {
            assert(s1[idx - 1] == s[idx]);
            assert(with_target(s, name, t) =~= s.update(idx, (name, s[idx].1.push(t))));
        } else if idx == s.len() && (forall|j: int| 0 <= j < s.len() ==> s[j].0 != name) {
            assert(forall|j: int| 0 <= j < s1.len() ==> #[trigger] s1[j].0 == s[j + 1].0);
            assert(with_target(s, name, t) =~= s.push((name, seq![t])));
        }
    }
}

/// The stock signature table: the fold of the built-in signatures over an
/// empty table, duplicate names merged in order of first appearance.
pub open spec fn example_table() -> Seq<(Seq<char>, Seq<Seq<Seq<char>>>)> {
    let t = Seq::<(Seq<char>, Seq<Seq<Seq<char>>>)>::empty();
    let t = with_target(t, "docker"@, seq![
        "[INFO] [stderr] Error response from daemon:"@,
        ": no such file or directory"@,
    ]);
    let t = with_target(t, "docker"@, seq![
        "[INFO] [stderr] Error response from daemon:"@,
        ": file exists"@,
    ]);
    let t = with_target(t, "compile_error!"@, seq!["compile_error!"@]);
    let t = with_target(t, "missing-env-var"@, seq![
        "note: this error originates in the macro `env`"@,
    ]);
    let t = with_target(t, "delimiter missmatch"@, seq![
        "error: mismatched closing delimiter:"@,
    ]);
    let t = with_target(t, "no-space"@, seq!["no space left on device"@]);
    let t = with_target(t, "linker-bus-error"@, seq![
        "collect2: fatal error: ld terminated with signal 7 [Bus error]"@,
    ]);
    let t = with_target(t, "useless-conversion"@, seq!["error: this conversion is useless"@]);
    let t = with_target(t, "build-script"@, seq![
        "[INFO] [stderr] error: failed to run custom build command for"@,
    ]);
    let t = with_target(t, "download"@, seq!["[INFO] [stderr] error: failed to download"@]);
    let t = with_target(t, "linker-undefined-symbol"@, seq![
        "rust-lld: error: undefined symbol:"@,
    ]);
    let t = with_target(t, "linker-missing-library"@, seq![
        "rust-lld: error: unable to find library"@,
    ]);
    let t = with_target(t, "linker-write-output"@, seq![
        "rust-lld: error: failed to write output"@,
        "No such file or directory"@,
    ]);
    let t = with_target(t, "include_str-missing-file"@, seq![
        "note: this error originates in the macro `include_str`"@,
    ]);
    let t = with_target(t, "include_bytes-missing-file"@, seq![
        "note: this error originates in the macro `include_bytes`"@,
    ]);
    let t = with_target(t, "ice"@, seq!["error: internal compiler error:"@]);
    let t = with_target(t, "task or parent failed (no space)"@, seq![
        "task or one of its parent failed: No space left on device"@,
    ]);
    let t = with_target(t, "task or parent failed (no space)"@, seq![
        "task or one of its parent failed: Io Error: No space left on device"@,
    ]);
    let t = with_target(t, "task or parent failed (failed to clone)"@, seq![
        "task or one of its parent failed: failed to clone"@,
    ]);
    let t = with_target(t, "invalid manifest"@, seq!["error: failed to parse manifest at"@]);
    let t = with_target(t, "invalid manifest"@, seq!["error: invalid table header"@]);
    let t = with_target(t, "invalid manifest"@, seq!["error: invalid type: "@, ", expected "@]);
    let t = with_target(t, "invalid lockfile"@, seq!["error: failed to parse lock file at"@]);
    let t = with_target(t, "timeout"@, seq![
        "[ERROR] error running command: no output for 300 seconds"@,
    ]);
    let t = with_target(t, "checksum mismatch"@, seq![
        "error: checksum for "@,
        " changed between lock files"@,
    ]);
    let t = with_target(t, "links conflict"@, seq![
        "the package "@,
        " links to the native library "@,
        ", but it conflicts with a previous package which links to "@,
        " as well:"@,
    ]);
    let t = with_target(t, "links conflict"@, seq![
        "error: Attempting to resolve a dependency with more than one crate with links="@,
    ]);
    let t = with_target(t, "version selection failed"@, seq![
        "error: failed to select a version for "@,
    ]);
    let t = with_target(t, "missing dep"@, seq![
        "error: no matching package named "@,
        " found"@,
    ]);
    let t = with_target(t, "missing dep"@, seq!["error: no matching package found"@]);
    let t = with_target(t, "missing dep"@, seq![
        "no matching package for override "@,
        " found"@,
    ]);
    let t = with_target(t, "dep removed feature"@, seq![
        "the package "@,
        " depends on "@,
        ", with features: "@,
        " but "@,
        " does not have these features"@,
    ]);
    let t = with_target(t, "missing registry"@, seq![
        "registry index was not found in any configuration:"@,
    ]);
    let t = with_target(t, "cyclic package dependency"@, seq![
        "error: cyclic package dependency: package "@,
        " depends on itself. Cycle:"@,
    ]);
    let t = with_target(t, "cyclic feature dependency"@, seq![
        "error: cyclic feature dependency: feature "@,
        " depends on itself"@,
    ]);
    let t = with_target(t, "filename too long"@, seq![
        "error: unable to create "@,
        ": File name too long"@,
    ]);
    let t = with_target(t, "invalid UTF-8"@, seq!["stream did not contain valid UTF-8"@]);
    t
}

impl Config {
    /// A configuration with the given expected outcomes and no signatures.
    pub fn new(crate_result: &str, run_result: &str) -> (r: Config)
        ensures
            r.crate_result@ == crate_result@,
            r.run_result@ == run_result@,
            r.targets.deep_view() =~= Seq::<(Seq<char>, Seq<Seq<Seq<char>>>)>::empty(),
    {
        Config {
            crate_result: crate_result.to_owned(),
            run_result: run_result.to_owned(),
            targets: Vec::new(),
        }
    }

    /// Adds a one-fragment literal signature under `name`.
    pub fn add1(&mut self, name: &str, f1: &str)
        ensures
            final(self).targets.deep_view() == with_target(
                old(self).targets.deep_view(),
                name@,
                seq![f1@],
            ),
            final(self).crate_result == old(self).crate_result,
            final(self).run_result == old(self).run_result,
    {
        let mut all: Vec<String> = Vec::new();
        all.push(f1.to_owned());
        proof {
            assert(all.deep_view() =~= seq![f1@]);
        }
        self.add_target(name, Target { all });
    }

    /// Adds a two-fragment literal signature under `name`.
    pub fn add2(&mut self, name: &str, f1: &str, f2: &str)
        ensures
            final(self).targets.deep_view() == with_target(
                old(self).targets.deep_view(),
                name@,
                seq![f1@, f2@],
            ),
            final(self).crate_result == old(self).crate_result,
            final(self).run_result == old(self).run_result,
    {
        let mut all: Vec<String> = Vec::new();
        all.push(f1.to_owned());
        all.push(f2.to_owned());
        proof {
            assert(all.deep_view() =~= seq![f1@, f2@]);
        }
        self.add_target(name, Target { all });
    }

    /// Adds a four-fragment literal signature under `name`.
    pub fn add4(&mut self, name: &str, f1: &str, f2: &str, f3: &str, f4: &str)
        ensures
            final(self).targets.deep_view() == with_target(
                old(self).targets.deep_view(),
                name@,
                seq![f1@, f2@, f3@, f4@],
            ),
            final(self).crate_result == old(self).crate_result,
            final(self).run_result == old(self).run_result,
    {
        let mut all: Vec<String> = Vec::new();
        all.push(f1.to_owned());
        all.push(f2.to_owned());
        all.push(f3.to_owned());
        all.push(f4.to_owned());
        proof {
            assert(all.deep_view() =~= seq![f1@, f2@, f3@, f4@]);
        }
        self.add_target(name, Target { all });
    }

    /// Adds a five-fragment literal signature under `name`.
    pub fn add5(&mut self, name: &str, f1: &str, f2: &str, f3: &str, f4: &str, f5: &str)
        ensures
            final(self).targets.deep_view() == with_target(
                old(self).targets.deep_view(),
                name@,
                seq![f1@, f2@, f3@, f4@, f5@],
            ),
            final(self).crate_result == old(self).crate_result,
            final(self).run_result == old(self).run_result,
    {
        let mut all: Vec<String> = Vec::new();
        all.push(f1.to_owned());
        all.push(f2.to_owned());
        all.push(f3.to_owned());
        all.push(f4.to_owned());
        all.push(f5.to_owned());
        proof {
            assert(all.deep_view() =~= seq![f1@, f2@, f3@, f4@, f5@]);
        }
        self.add_target(name, Target { all });
    }

    /// The built-in seed configuration: the expected outcomes are both
    /// `error`, and the signature table holds the stock failure causes.
    /// It is the table written out when no configuration file exists yet.
    pub fn example() -> (r: Config)
        ensures
            r.crate_result@ == "error"@,
            r.run_result@ == "error"@,
            r.targets.deep_view() == example_table(),
    {
        let mut c = Config::new("error", "error");
        c.add2(
            "docker",
            "[INFO] [stderr] Error response from daemon:",
            ": no such file or directory",
        );
        c.add2("docker", "[INFO] [stderr] Error response from daemon:", ": file exists");
        c.add1("compile_error!", "compile_error!");
        c.add1("missing-env-var", "note: this error originates in the macro `env`");
        c.add1("delimiter missmatch", "error: mismatched closing delimiter:");
        c.add1("no-space", "no space left on device");
        c.add1(
            "linker-bus-error",
            "collect2: fatal error: ld terminated with signal 7 [Bus error]",
        );
        c.add1("useless-conversion", "error: this conversion is useless");
        c.add1("build-script", "[INFO] [stderr] error: failed to run custom build command for");
        c.add1("download", "[INFO] [stderr] error: failed to download");
        c.add1("linker-undefined-symbol", "rust-lld: error: undefined symbol:");
        c.add1("linker-missing-library", "rust-lld: error: unable to find library");
        c.add2("linker-write-output", "rust-lld: error: failed to write output",
            "No such file or directory");
        c.add1(
            "include_str-missing-file",
            "note: this error originates in the macro `include_str`",
        );
        c.add1(
            "include_bytes-missing-file",
            "note: this error originates in the macro `include_bytes`",
        );
        c.add1("ice", "error: internal compiler error:");
        c.add1(
            "task or parent failed (no space)",
            "task or one of its parent failed: No space left on device",
        );
        c.add1(
            "task or parent failed (no space)",
            "task or one of its parent failed: Io Error: No space left on device",
        );
        c.add1(
            "task or parent failed (failed to clone)",
            "task or one of its parent failed: failed to clone",
        );
        c.add1("invalid manifest", "error: failed to parse manifest at");
        c.add1("invalid manifest", "error: invalid table header");
        c.add2("invalid manifest", "error: invalid type: ", ", expected ");
        c.add1("invalid lockfile", "error: failed to parse lock file at");
        c.add1("timeout", "[ERROR] error running command: no output for 300 seconds");
        c.add2("checksum mismatch", "error: checksum for ", " changed between lock files");
        c.add4(
            "links conflict",
            "the package ",
            " links to the native library ",
            ", but it conflicts with a previous package which links to ",
            " as well:",
        );
        c.add1(
            "links conflict",
            "error: Attempting to resolve a dependency with more than one crate with links=",
        );
        c.add1("version selection failed", "error: failed to select a version for ");
        c.add2("missing dep", "error: no matching package named ", " found");
        c.add1("missing dep", "error: no matching package found");
        c.add2("missing dep", "no matching package for override ", " found");
        c.add5(
            "dep removed feature",
            "the package ",
            " depends on ",
            ", with features: ",
            " but ",
            " does not have these features",
        );
        c.add1("missing registry", "registry index was not found in any configuration:");
        c.add2(
            "cyclic package dependency",
            "error: cyclic package dependency: package ",
            " depends on itself. Cycle:",
        );
        c.add2(
            "cyclic feature dependency",
            "error: cyclic feature dependency: feature ",
            " depends on itself",
        );
        c.add2("filename too long", "error: unable to create ", ": File name too long");
        c.add1("invalid UTF-8", "stream did not contain valid UTF-8");
        c
    }

    /// Adds one literal signature alternative under `name`, merging with an
    /// existing entry of that name.
    pub fn add_target(&mut self, name: &str, target: Target)
        ensures
            final(self).targets.deep_view() == with_target(
                old(self).targets.deep_view(),
                name@,
                target@,
            ),
            final(self).crate_result == old(self).crate_result,
            final(self).run_result == old(self).run_result,
    {
        let ghost s = self.targets.deep_view();
        let n = self.targets.len();
        let mut idx: usize = 0;
        while idx < n
            invariant
                n == self.targets@.len(),
                idx <= n,
                *self == *old(self),
                s == self.targets.deep_view(),
                forall|j: int| 0 <= j < idx ==> s[j].0 != name@,
            decreases n - idx,
        {
            if str_eq(self.targets[idx].name.as_str(), name) {
                let ghost old_alts = self.targets@[idx as int].alternatives.deep_view();
                self.targets[idx].alternatives.push(target);
                proof {
                    lemma_with_target_at(s, name@, target@, idx as int);
                    assert(self.targets@[idx as int].alternatives.deep_view() =~= old_alts.push(
                        target@,
                    ));
                    assert(self.targets.deep_view() =~= s.update(
                        idx as int,
                        (name@, s[idx as int].1.push(target@)),
                    ));
                    assert(s[idx as int].0 == name@);
                    assert(s.update(idx as int, (name@, s[idx as int].1.push(target@))) == s.update(
                        idx as int,
                        (s[idx as int].0, s[idx as int].1.push(target@)),
                    ));
                }
                return ;
            }
            idx = idx + 1;
        }
        self.targets.push(SignatureEntry { name: name.to_owned(), alternatives: vec![target] });
        proof {
            lemma_with_target_at(s, name@, target@, n as int);
            assert(self.targets@[n as int].alternatives.deep_view() =~= seq![target@]);
            assert(self.targets.deep_view() =~= s.push((name@, seq![target@])));
        }
    }
}

} // verus!
