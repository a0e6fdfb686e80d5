//! Build targets, the command line that builds them, and the binaries that
//! the build's messages name.

use vstd::prelude::*;
use vstd::string::*;
use crate::paths::{lemma_path_le_chain, lemma_path_le_either, path_le, paths_in_order};
use crate::util::{join, joined, strings, CommandLine, CommandLineView};

verus! {

/// `cargo_metadata::ArtifactProfile`, the profile an artifact was compiled
/// with. Its value is carried along and never looked into.
#[verifier::external_type_specification]
#[verifier::external_body]
pub struct ExArtifactProfile(cargo_metadata::ArtifactProfile);

/// `Clone::clone` of `cargo_metadata::ArtifactProfile`, which the copies of
/// a binary and of a build's message make of their profile. Nothing is
/// claimed of the copy.
pub assume_specification[ <cargo_metadata::ArtifactProfile as Clone>::clone ](
    profile: &cargo_metadata::ArtifactProfile,
) -> (copy: cargo_metadata::ArtifactProfile)
;

/// Built bin file.
#[derive(Debug, Clone, PartialEq, Eq, Hash)]
pub struct BinFile {
    pub path: String,
    pub is_bench: bool,
    /// The other files of the artifact, such as a `.dSYM`.
    pub extra_files: Vec<String>,
    pub profile: cargo_metadata::ArtifactProfile,
}

/// The mathematical value of a [`BinFile`].
pub struct BinFileView {
    pub path: Seq<char>,
    pub is_bench: bool,
    pub extra_files: Seq<Seq<char>>,
    pub profile: cargo_metadata::ArtifactProfile,
}

impl View for BinFile {
    type V = BinFileView;

    open spec fn view(&self) -> BinFileView {
        BinFileView {
            path: self.path@,
            is_bench: self.is_bench,
            extra_files: strings(self.extra_files@),
            profile: self.profile,
        }
    }
}

/// The values of a sequence of binaries.
pub open spec fn binaries(files: Seq<BinFile>) -> Seq<BinFileView> {
    Seq::new(files.len(), |i: int| files[i]@)
}

/// Which tests to build.
#[derive(Debug, Clone)]
pub struct TestSpecifier {
    pub lib: bool,
    pub test: Option<String>,
    pub tests: bool,
    pub args: Vec<String>,
}

/// Which benchmarks to build.
#[derive(Debug, Clone)]
pub struct BenchSpecifier {
    pub lib: bool,
    pub bench: Option<String>,
    pub benches: bool,
    pub args: Vec<String>,
}

/// What to build, and the arguments handed to the built binary.
#[derive(Debug, Clone)]
pub struct CargoTarget {
    pub lib: bool,
    pub release: bool,
    pub bin: Option<String>,
    pub bench: Option<String>,
    pub benches: bool,
    pub test: Option<String>,
    pub tests: bool,
    pub example: Option<String>,
    pub examples: bool,
    pub features: Option<Vec<String>>,
    /// Arguments passed to the target binary.
    pub target_args: Vec<String>,
}

impl CargoTarget {
    /// Whether the target is a test or an example.
    pub fn supports_release_flag(&self) -> (r: bool)
        ensures
            r == (self.tests || self.test is Some || self.examples || self.example is Some),
    {
        self.tests || self.test.is_some() || self.examples || self.example.is_some()
    }

    /// The arguments for the target binary, in the order they were given.
    pub fn args(&self) -> (r: &[String])
        ensures
            r@ == self.target_args@,
    {
        self.target_args.as_slice()
    }

    /// Whether benchmarks are built.
    pub open spec fn builds_benches(&self) -> bool {
        self.benches || self.bench is Some
    }

    /// Whether tests are built, and no benchmarks.
    pub open spec fn builds_tests(&self) -> bool {
        !self.builds_benches() && (self.tests || self.test is Some)
    }
}

/// A flag, if it is set.
pub open spec fn flag(set: bool, name: Seq<char>) -> Seq<Seq<char>> {
    if set {
        seq![name]
    } else {
        Seq::empty()
    }
}

/// An option with its value, if it has one.
pub open spec fn option(value: Option<String>, name: Seq<char>) -> Seq<Seq<char>> {
    match value {
        Some(v) => seq![name, v@],
        None => Seq::empty(),
    }
}

/// The arguments that build a target: benchmarks where any are asked for,
/// else tests where any are, else the library and the examples; then the
/// features, joined by commas; then the request for messages as JSON.
/// Benchmarks are built optimized unless `--debug` is given, the others
/// unoptimized unless `--release` is.
pub open spec fn build_args(target: CargoTarget) -> Seq<Seq<char>> {
    let kind = if target.builds_benches() {
        seq!["bench"@, "--no-run"@] + flag(!target.release, "--debug"@) + flag(
            target.benches,
            "--benches"@,
        ) + option(target.bench, "--bench"@)
    } else if target.builds_tests() {
        seq!["test"@, "--no-run"@] + flag(target.release, "--release"@) + flag(
            target.tests,
            "--tests"@,
        ) + option(target.test, "--test"@)
    } else {
        seq!["build"@] + flag(target.release, "--release"@) + flag(target.lib, "--lib"@) + flag(
            target.examples,
            "--examples"@,
        ) + option(target.example, "--example"@)
    };
    let features = match target.features {
        Some(features) => seq!["--features"@, joined(strings(features@), ","@)],
        None => Seq::empty(),
    };
    kind + features + seq!["--message-format=json"@]
}

fn add_flag(command: &mut CommandLine, set: bool, name: &str)
    ensures
        final(command)@.program == old(command)@.program,
        final(command)@.args == old(command)@.args + flag(set, name@),
{
    if set {
        command.arg(name);
        assert(command@.args =~= old(command)@.args + flag(set, name@));
    } else {
        assert(command@.args =~= old(command)@.args + flag(set, name@));
    }
}

fn add_option(command: &mut CommandLine, value: &Option<String>, name: &str)
    ensures
        final(command)@.program == old(command)@.program,
        final(command)@.args == old(command)@.args + option(*value, name@),
{
    match value {
        Some(v) => {
            command.arg(name);
            command.arg(v.as_str());
            assert(command@.args =~= old(command)@.args + option(*value, name@));
        },
        None => {
            assert(command@.args =~= old(command)@.args + option(*value, name@));
        },
    }
}

/// The command line that builds `target` with the program `cargo`.
pub fn build_command(cargo: &str, target: &CargoTarget) -> (command: CommandLine)
    ensures
        command@.program == cargo@,
        command@.args == build_args(*target),
{
    let mut command = CommandLine { program: cargo.to_owned(), args: Vec::new() };
    assert(command@.args =~= Seq::<Seq<char>>::empty());
    if target.benches || target.bench.is_some() {
        command.arg("bench");
        command.arg("--no-run");
        add_flag(&mut command, !target.release, "--debug");
        add_flag(&mut command, target.benches, "--benches");
        add_option(&mut command, &target.bench, "--bench");
    } else if target.tests || target.test.is_some() {
        command.arg("test");
        command.arg("--no-run");
        add_flag(&mut command, target.release, "--release");
        add_flag(&mut command, target.tests, "--tests");
        add_option(&mut command, &target.test, "--test");
    } else {
        command.arg("build");
        add_flag(&mut command, target.release, "--release");
        add_flag(&mut command, target.lib, "--lib");
        add_flag(&mut command, target.examples, "--examples");
        add_option(&mut command, &target.example, "--example");
    }
    match &target.features {
        Some(features) => {
            command.arg("--features");
            let list = join(features.as_slice(), ",");
            command.arg(list.as_str());
        },
        None => {},
    }
    command.arg("--message-format=json");
    assert(command@.args =~= build_args(*target));
    command
}

/// A file of an artifact, and whether it can be executed.
#[derive(Debug, Clone, PartialEq, Eq)]
pub struct BuiltFile {
    pub path: String,
    pub executable: bool,
}

/// What a build reports, as far as the binaries depend on it.
#[derive(Debug, Clone, PartialEq, Eq)]
pub enum BuildMessage {
    /// An artifact was generated: the kinds of its target, its files in the
    /// order given, and the profile it was compiled with.
    Artifact { kinds: Vec<String>, files: Vec<BuiltFile>, profile: cargo_metadata::ArtifactProfile },
    /// The build has finished.
    Finished { success: bool },
    /// Anything else.
    Other,
}

/// Why a build yields no binaries.
#[derive(Debug, Clone, Copy, PartialEq, Eq)]
pub enum CompileError {
    /// The build finished without success.
    BuildFailed,
    /// No artifact is a binary with an executable file.
    NoBinary,
}

/// Whether a target of these kinds is run: a binary, a test, a benchmark or
/// an example.
pub open spec fn is_binary_kind(kinds: Seq<Seq<char>>) -> bool {
    kinds.contains("bin"@) || kinds.contains("test"@) || kinds.contains("bench"@) || kinds.contains(
        "example"@,
    )
}

/// Whether file `k` can be executed and none before it can.
pub open spec fn is_first_executable(files: Seq<BuiltFile>, k: int) -> bool {
    &&& 0 <= k < files.len()
    &&& files[k].executable
    &&& forall|j: int| 0 <= j < k ==> !(#[trigger] files[j]).executable
}

/// The paths of files.
pub open spec fn paths(files: Seq<BuiltFile>) -> Seq<Seq<char>> {
    Seq::new(files.len(), |i: int| files[i].path@)
}

/// The binary of an artifact: its first executable file, with the other
/// files beside it. None where the target is not of a kind that is run, or
/// no file can be executed.
pub open spec fn binary_of(
    kinds: Seq<Seq<char>>,
    files: Seq<BuiltFile>,
    profile: cargo_metadata::ArtifactProfile,
    is_bench: bool,
) -> Option<BinFileView> {
    if is_binary_kind(kinds) && exists|k: int| is_first_executable(files, k) {
        let k = choose|k: int| is_first_executable(files, k);
        Some(
            BinFileView {
                path: files[k].path@,
                is_bench,
                extra_files: paths(files.remove(k)),
                profile,
            },
        )
    } else {
        None
    }
}

/// The binaries of the artifacts among the messages, in their order.
pub open spec fn found(messages: Seq<BuildMessage>, is_bench: bool) -> Seq<BinFileView>
    decreases messages.len(),
{
    if messages.len() == 0 {
        Seq::empty()
    } else {
        let before = found(messages.drop_last(), is_bench);
        match messages.last() {
            BuildMessage::Artifact { kinds, files, profile } => match binary_of(
                strings(kinds@),
                files@,
                profile,
                is_bench,
            ) {
                Some(binary) => before.push(binary),
                None => before,
            },
            _ => before,
        }
    }
}

/// Whether a message says that the build finished without success.
pub open spec fn failed(message: BuildMessage) -> bool {
    message matches BuildMessage::Finished { success } && !success
}

/// `sorted` with `file` in it: after the files that stand before it or have
/// the components of its path, before the others.
pub open spec fn inserted(sorted: Seq<BinFileView>, file: BinFileView) -> Seq<BinFileView>
    decreases sorted.len(),
{
    if sorted.len() > 0 && !path_le(sorted.last().path, file.path) {
        inserted(sorted.drop_last(), file).push(sorted.last())
    } else {
        sorted.push(file)
    }
}

/// The files in the order of their paths, those whose paths have the same
/// components in the order they came in.
pub open spec fn sorted_by_path(files: Seq<BinFileView>) -> Seq<BinFileView>
    decreases files.len(),
{
    if files.len() == 0 {
        Seq::empty()
    } else {
        inserted(sorted_by_path(files.drop_last()), files.last())
    }
}

/// Whether each file stands before those after it, or has the components of
/// their paths.
pub open spec fn in_path_order(files: Seq<BinFileView>) -> bool {
    forall|i: int, j: int|
        0 <= i < j < files.len() ==> path_le((#[trigger] files[i]).path, (#[trigger] files[j]).path)
}

proof fn lemma_inserted(sorted: Seq<BinFileView>, file: BinFileView)
    requires
        in_path_order(sorted),
    ensures
        in_path_order(inserted(sorted, file)),
        inserted(sorted, file).to_multiset() == sorted.to_multiset().insert(file),
        inserted(sorted, file).len() == sorted.len() + 1,
        forall|k: int|
            0 <= k < inserted(sorted, file).len() ==> (#[trigger] inserted(sorted, file)[k]) == file || sorted.contains(
                inserted(sorted, file)[k],
            ),
    decreases sorted.len(),
{
    broadcast use vstd::seq_lib::group_to_multiset_ensures;

    let after = inserted(sorted, file);
    if sorted.len() > 0 && !path_le(sorted.last().path, file.path) {
        let front = sorted.drop_last();
        let last = sorted.last();
        assert forall|i: int, j: int| 0 <= i < j < front.len() implies path_le(
            (#[trigger] front[i]).path,
            (#[trigger] front[j]).path,
        ) by {
            assert(front[i] == sorted[i] && front[j] == sorted[j]);
        }
        lemma_inserted(front, file);
        let before = inserted(front, file);
        lemma_path_le_either(last.path, file.path);
        assert forall|i: int, j: int| 0 <= i < j < after.len() implies path_le(
            (#[trigger] after[i]).path,
            (#[trigger] after[j]).path,
        ) by {
            if j < before.len() {
                assert(after[i] == before[i] && after[j] == before[j]);
            } else {
                assert(after[i] == before[i]);
                if before[i] != file {
                    assert(front.contains(before[i]));
                    let at = choose|at: int| 0 <= at < front.len() && front[at] == before[i];
                    assert(sorted[at] == before[i]);
                    assert(path_le(sorted[at].path, sorted[sorted.len() - 1].path));
                }
            }
        }
        assert forall|k: int| 0 <= k < after.len() implies (#[trigger] after[k]) == file || sorted.contains(
            after[k],
        ) by {
            if k < before.len() {
                assert(after[k] == before[k]);
                if before[k] != file {
                    let at = choose|at: int| 0 <= at < front.len() && front[at] == before[k];
                    assert(sorted[at] == after[k]);
                }
            } else {
                assert(sorted[sorted.len() - 1] == after[k]);
            }
        }
        assert(sorted =~= front.push(last));
        assert(sorted.to_multiset() =~= front.to_multiset().insert(last));
        assert(after.to_multiset() =~= before.to_multiset().insert(last));
        assert(after.to_multiset() =~= sorted.to_multiset().insert(file));
    } else {
        assert forall|i: int, j: int| 0 <= i < j < after.len() implies path_le(
            (#[trigger] after[i]).path,
            (#[trigger] after[j]).path,
        ) by {
            if j < sorted.len() {
                assert(after[i] == sorted[i] && after[j] == sorted[j]);
            } else {
                assert(after[i] == sorted[i]);
                if i < sorted.len() - 1 {
                    assert(path_le(sorted[i].path, sorted[sorted.len() - 1].path));
                    lemma_path_le_chain(sorted[i].path, sorted.last().path, file.path);
                }
            }
        }
        assert forall|k: int| 0 <= k < after.len() implies (#[trigger] after[k]) == file || sorted.contains(
            after[k],
        ) by {
            if k < sorted.len() {
                assert(sorted[k] == after[k]);
            }
        }
    }
}

/// The sorted files are the files, each as often as it came in, and each
/// stands before those after it or has the components of their paths.
pub proof fn lemma_sorted_by_path(files: Seq<BinFileView>)
    ensures
        in_path_order(sorted_by_path(files)),
        sorted_by_path(files).to_multiset() == files.to_multiset(),
        sorted_by_path(files).len() == files.len(),
    decreases files.len(),
{
    broadcast use vstd::seq_lib::group_to_multiset_ensures;

    if files.len() > 0 {
        lemma_sorted_by_path(files.drop_last());
        lemma_inserted(sorted_by_path(files.drop_last()), files.last());
        assert(files =~= files.drop_last().push(files.last()));
        assert(files.to_multiset() =~= files.drop_last().to_multiset().insert(files.last()));
    }
}

/// What a build yields: the binaries of its artifacts in the order of their
/// paths, unless a message says that the build failed, or there is none.
pub open spec fn compiled(target: CargoTarget, messages: Seq<BuildMessage>) -> Result<
    Seq<BinFileView>,
    CompileError,
> {
    if exists|i: int| 0 <= i < messages.len() && failed(#[trigger] messages[i]) {
        Err(CompileError::BuildFailed)
    } else if found(messages, target.builds_benches()).len() == 0 {
        Err(CompileError::NoBinary)
    } else {
        Ok(sorted_by_path(found(messages, target.builds_benches())))
    }
}

fn contains_text(texts: &Vec<String>, text: &str) -> (r: bool)
    ensures
        r == strings(texts@).contains(text@),
{
    let wanted = text.to_owned();
    let mut i: usize = 0;
    while i < texts.len()
        invariant
            i <= texts.len(),
            wanted@ == text@,
            forall|k: int| 0 <= k < i ==> strings(texts@)[k] != text@,
        decreases texts.len() - i,
    {
        if texts[i] == wanted {
            assert(strings(texts@)[i as int] == text@);
            return true;
        }
        i += 1;
    }
    false
}

fn is_run(kinds: &Vec<String>) -> (r: bool)
    ensures
        r == is_binary_kind(strings(kinds@)),
{
    contains_text(kinds, "bin") || contains_text(kinds, "test") || contains_text(kinds, "bench")
        || contains_text(kinds, "example")
}

fn binary(kinds: &Vec<String>, files: Vec<BuiltFile>, profile: cargo_metadata::ArtifactProfile, is_bench: bool) -> (r:
    Option<BinFile>)
    ensures
        r is Some <==> binary_of(strings(kinds@), files@, profile, is_bench) is Some,
        r matches Some(b) ==> binary_of(strings(kinds@), files@, profile, is_bench) == Some(b@),
{
    if !is_run(kinds) {
        return None;
    }
    let mut first: usize = 0;
    while first < files.len() && !files[first].executable
        invariant
            first <= files.len(),
            forall|j: int| 0 <= j < first ==> !(#[trigger] files[j]).executable,
        decreases files.len() - first,
    {
        first += 1;
    }
    if first == files.len() {
        assert forall|k: int| !is_first_executable(files@, k) by {
            if 0 <= k < files.len() {
                assert(!files[k].executable);
            }
        }
        return None;
    }
    assert(is_first_executable(files@, first as int));
    let ghost chosen = choose|k: int| is_first_executable(files@, k);
    assert(chosen == first) by {
        if chosen < first {
            assert(!files[chosen].executable);
        } else if first < chosen {
            assert(!files[first as int].executable);
        }
    }
    let mut path = String::new();
    let mut extra_files: Vec<String> = Vec::new();
    let mut taken = false;
    let ghost all = files@;
    for file in it: files
        invariant
            it.seq() == all,
            first < all.len(),
            taken == (it.index() > first),
            it.index() > first ==> path@ == all[first as int].path@,
            it.index() <= first ==> extra_files@.len() == it.index(),
            it.index() > first ==> extra_files@.len() == it.index() - 1,
            forall|j: int| 0 <= j < extra_files.len() && j < first ==> (#[trigger] extra_files[j])@ == all[j].path@,
            forall|j: int|
                first <= j < extra_files.len() ==> (#[trigger] extra_files[j])@ == all[j + 1].path@,
    {
        if extra_files.len() == first && !taken {
            path = file.path;
            taken = true;
        } else {
            extra_files.push(file.path);
        }
    }
    let found = BinFile { path, is_bench, extra_files, profile };
    assert(found@.extra_files =~= paths(all.remove(first as int)));
    Some(found)
}

fn insert_by_path(sorted: &mut Vec<BinFile>, file: BinFile)
    ensures
        binaries(final(sorted)@) == inserted(binaries(old(sorted)@), file@),
{
    let ghost before = binaries(sorted@);
    let mut at: usize = sorted.len();
    assert(before.take(at as int) =~= before);
    assert(before.skip(at as int) =~= Seq::<BinFileView>::empty());
    assert(inserted(before, file@) =~= inserted(before.take(at as int), file@) + before.skip(at as int));
    let mut settled = false;
    while at > 0 && !settled
        invariant
            at <= sorted.len(),
            sorted@ == old(sorted)@,
            before == binaries(sorted@),
            inserted(before, file@) == inserted(before.take(at as int), file@) + before.skip(at as int),
            settled ==> at > 0 && path_le(before[at - 1].path, file@.path),
        decreases at - if settled { 1int } else { 0int },
    {
        if paths_in_order(sorted[at - 1].path.as_str(), file.path.as_str()) {
            settled = true;
        } else {
            proof {
                assert(before.take(at as int).drop_last() =~= before.take(at - 1));
                assert(before.take(at as int).last() == before[at - 1]);
                assert(inserted(before.take(at - 1), file@).push(before[at - 1]) + before.skip(
                    at as int,
                ) =~= inserted(before.take(at - 1), file@) + before.skip(at - 1));
            }
            at -= 1;
        }
    }
    proof {
        if at > 0 {
            assert(before.take(at as int).last() == before[at - 1]);
        }
        assert(inserted(before.take(at as int), file@) == before.take(at as int).push(file@));
        assert(before.take(at as int).push(file@) + before.skip(at as int) =~= before.insert(
            at as int,
            file@,
        ));
    }
    sorted.insert(at, file);
    assert(binaries(sorted@) =~= before.insert(at as int, file@));
}

/// The binaries that a build of `target` has yielded, going by its messages:
/// of each artifact that is a binary, a test, a benchmark or an example, the
/// first file that can be executed, with the artifact's other files beside
/// it. They come in the order of their paths, component by component, and
/// those whose paths have the same components in the order of the messages.
///
/// `BuildFailed` where a message says that the build finished without
/// success; else `NoBinary` where no artifact has such a file.
pub fn compile(target: &CargoTarget, messages: Vec<BuildMessage>) -> (r: Result<Vec<BinFile>, CompileError>)
    ensures
        match r {
            Ok(files) => compiled(*target, messages@) == Ok::<Seq<BinFileView>, CompileError>(
                binaries(files@),
            ),
            Err(e) => compiled(*target, messages@) == Err::<Seq<BinFileView>, CompileError>(e),
        },
{
    let is_bench = target.benches || target.bench.is_some();
    let mut unsorted: Vec<BinFile> = Vec::new();
    let ghost all = messages@;
    assert(all.take(0) =~= Seq::<BuildMessage>::empty());
    assert(binaries(unsorted@) =~= Seq::<BinFileView>::empty());
    for message in it: messages
        invariant
            it.seq() == all,
            is_bench == target.builds_benches(),
            binaries(unsorted@) == found(all.take(it.index() as int), is_bench),
            forall|j: int| 0 <= j < it.index() ==> !failed(#[trigger] all[j]),
    {
        let ghost before = binaries(unsorted@);
        proof {
            assert(all.take(it.index() + 1).drop_last() =~= all.take(it.index() as int));
            assert(all.take(it.index() + 1).last() == message);
        }
        match message {
            BuildMessage::Artifact { kinds, files, profile } => {
                match binary(&kinds, files, profile, is_bench) {
                    Some(file) => {
                        unsorted.push(file);
                        assert(binaries(unsorted@) =~= before.push(file@));
                    },
                    None => {},
                }
            },
            BuildMessage::Finished { success } => {
                if !success {
                    assert(failed(all[it.index() as int]));
                    return Err(CompileError::BuildFailed);
                }
            },
            BuildMessage::Other => {},
        }
    }
    assert(all.take(all.len() as int) =~= all);
    if unsorted.len() == 0 {
        return Err(CompileError::NoBinary);
    }
    let mut sorted: Vec<BinFile> = Vec::new();
    let ghost files = binaries(unsorted@);
    assert(files.take(0) =~= Seq::<BinFileView>::empty());
    assert(binaries(sorted@) =~= Seq::<BinFileView>::empty());
    for file in it: unsorted
        invariant
            it.seq() == unsorted@,
            files == binaries(unsorted@),
            binaries(sorted@) == sorted_by_path(files.take(it.index() as int)),
    {
        proof {
            assert(files.take(it.index() + 1).drop_last() =~= files.take(it.index() as int));
            assert(files.take(it.index() + 1).last() == file@);
        }
        insert_by_path(&mut sorted, file);
    }
    assert(files.take(files.len() as int) =~= files);
    Ok(sorted)
}

/// The one binary of a build, or else how many there are.
pub fn only_binary(files: Vec<BinFile>) -> (r: Result<BinFile, usize>)
    ensures
        files.len() == 1 ==> r == Ok::<BinFile, usize>(files[0]),
        files.len() != 1 ==> r == Err::<BinFile, usize>(files.len()),
{
    let mut files = files;
    if files.len() != 1 {
        Err(files.len())
    } else {
        Ok(files.pop().unwrap())
    }
}

} // verus!
