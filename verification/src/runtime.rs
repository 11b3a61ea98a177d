//! What a runtime map does with its inputs: which outputs it plans and
//! where they go. Reading, compressing, fetching and writing files is left
//! to the caller.
use crate::content::ActMap;
use crate::eval::{invalid_input, ErrorKind, RuntimeError};
use crate::text::{chars_of, concat, concat3, owned};
use vstd::prelude::*;
use vstd::string::StrSliceExecFns;

verus! {

/// A file a map produced, by its path.
#[derive(Debug)]
pub struct Artifact(pub String);

impl Artifact {
    pub fn path(&self) -> (r: &str)
        ensures
            r@ == self.0@,
    {
        self.0.as_str()
    }

    /// The artifact at an input's path.
    pub fn from_input(input: &Input) -> (a: Artifact)
        ensures
            a.0@ == input.0@,
    {
        Artifact(owned(input.0.as_str()))
    }
}

/// An input of a map: a path or a URL, as text.
#[derive(Debug)]
pub struct Input(pub String);

impl Input {
    pub fn new(value: &str) -> (i: Input)
        ensures
            i.0@ == value@,
    {
        Input(owned(value))
    }

    /// An input naming a path.
    pub fn path(path: &str) -> (i: Input)
        ensures
            i.0@ == path@,
    {
        Input(owned(path))
    }

    pub fn as_str(&self) -> (r: &str)
        ensures
            r@ == self.0@,
    {
        self.0.as_str()
    }

    pub fn as_path(&self) -> (r: &str)
        ensures
            r@ == self.0@,
    {
        self.0.as_str()
    }
}

/// The compression level used unless another is set.
pub const DEFAULT_ZSTD_LEVEL: i32 = 3;

/// What a map runs on: its inputs, the directory its outputs go to and the
/// compression level.
#[derive(Debug)]
pub struct Context {
    inputs: Vec<Input>,
    output_dir: String,
    zstd_level: i32,
}

impl Context {
    pub closed spec fn input_paths(&self) -> Seq<Seq<char>> {
        Seq::new(self.inputs@.len(), |i: int| self.inputs@[i].0@)
    }

    pub closed spec fn output_dir_spec(&self) -> Seq<char> {
        self.output_dir@
    }

    pub closed spec fn level_spec(&self) -> i32 {
        self.zstd_level
    }

    /// A context with the default compression level.
    pub fn new(inputs: Vec<Input>, output_dir: &str) -> (c: Context)
        ensures
            c.input_paths() == Seq::new(inputs@.len(), |i: int| inputs@[i].0@),
            c.output_dir_spec() == output_dir@,
            c.level_spec() == DEFAULT_ZSTD_LEVEL,
    {
        Context { inputs, output_dir: owned(output_dir), zstd_level: DEFAULT_ZSTD_LEVEL }
    }

    /// The same context with another compression level.
    pub fn level(self, level: i32) -> (c: Context)
        ensures
            c.input_paths() == self.input_paths(),
            c.output_dir_spec() == self.output_dir_spec(),
            c.level_spec() == level,
    {
        Context { inputs: self.inputs, output_dir: self.output_dir, zstd_level: level }
    }

    pub fn inputs(&self) -> (r: &[Input])
        ensures
            r@.len() == self.input_paths().len(),
            forall|i: int| 0 <= i < r@.len() ==> (#[trigger] r@[i]).0@ == self.input_paths()[i],
    {
        self.inputs.as_slice()
    }

    pub fn output_dir(&self) -> (r: &str)
        ensures
            r@ == self.output_dir_spec(),
    {
        self.output_dir.as_str()
    }

    pub fn zstd_level(&self) -> (r: i32)
        ensures
            r == self.level_spec(),
    {
        self.zstd_level
    }
}

/// The extension a compressed file gets: its input's extension followed by
/// `.zst`, or `zst` where the input has none.
pub open spec fn zstd_extension_spec(extension: Option<Seq<char>>) -> Seq<char> {
    match extension {
        Some(e) => e + ".zst"@,
        None => "zst"@,
    }
}

/// The extension of a compressed file, from the input's own extension.
pub fn zstd_extension(extension: Option<&str>) -> (r: String)
    ensures
        r@ == zstd_extension_spec(
            match extension {
                Some(e) => Some(e@),
                None => None,
            },
        ),
{
    match extension {
        Some(e) => concat(e, ".zst"),
        None => owned("zst"),
    }
}

/// A name that is a path of one component on every platform: not empty,
/// not `.` or `..`, and free of the characters that some platform reads as
/// a separator or a prefix (`/`, `\`, `:`).
pub open spec fn plain_name(s: Seq<char>) -> bool {
    &&& s.len() > 0
    &&& s != "."@
    &&& s != ".."@
    &&& forall|i: int| 0 <= i < s.len() ==> s[i] != '/' && s[i] != '\\' && s[i] != ':'
}

/// A path whose components every platform splits at `/` alone: it holds no
/// `\` or `:`, and does not open with the `//` of a network prefix.
pub open spec fn simple_path(s: Seq<char>) -> bool {
    &&& forall|i: int| 0 <= i < s.len() ==> s[i] != '\\' && s[i] != ':'
    &&& !(s.len() >= 2 && s[0] == '/' && s[1] == '/')
}

/// The `/` at `k` is the last one of `s`, and a plain name follows it.
pub open spec fn name_follows(s: Seq<char>, k: int) -> bool {
    &&& 0 <= k < s.len()
    &&& s[k] == '/'
    &&& plain_name(s.subrange(k + 1, s.len() as int))
}

/// Whether `s` ends in a file name that every platform sees the same way:
/// it is a plain name, or a simple path whose last `/` a plain name follows.
pub open spec fn names_a_file(s: Seq<char>) -> bool {
    ||| plain_name(s)
    ||| (simple_path(s) && exists|k: int| #[trigger] name_follows(s, k))
}

/// The file name a path that names a file ends in: itself when it is a
/// plain name, else the plain name after its last `/`.
pub open spec fn file_name_spec(s: Seq<char>) -> Seq<char> {
    if plain_name(s) {
        s
    } else {
        s.subrange((choose|k: int| name_follows(s, k)) + 1, s.len() as int)
    }
}

/// The final component of `path`, by `std::path::Path::file_name`. Its
/// documentation calls the result the path's final component and shows
/// that `/` has none; what is stated here is the part of that on which
/// every platform agrees: `/` has no file name, a plain name is its own
/// file name, and so is the plain name after the last `/` of a simple
/// path. Other paths (with prefixes, `..` at the end, or platform
/// separators) are left unsaid.
#[verifier::external_body]
fn file_name_of(path: &str) -> (r: Option<String>)
    ensures
        path@ == "/"@ ==> r is None,
        plain_name(path@) ==> match r {
            Some(n) => n@ == path@,
            None => false,
        },
        forall|k: int|
            simple_path(path@) && #[trigger] name_follows(path@, k) ==> match r {
                Some(n) => n@ == path@.subrange(k + 1, path@.len() as int),
                None => false,
            },
{
    match std::path::Path::new(path).file_name() {
        Some(name) => Some(name.to_string_lossy().into_owned()),
        None => None,
    }
}

/// `dir` joined with `name` as a Unix path is joined: `name` alone when it
/// is absolute or `dir` is empty, else `dir`, a `/` unless `dir` already
/// ends in one, then `name`.
pub open spec fn unix_join(dir: Seq<char>, name: Seq<char>) -> Seq<char> {
    if (name.len() > 0 && name[0] == '/') || dir.len() == 0 {
        name
    } else if dir.last() == '/' {
        dir + name
    } else {
        dir + "/"@ + name
    }
}

/// Joins `name` to `dir` with a `/` separator (see `unix_join`).
pub fn join_path(dir: &str, name: &str) -> (r: String)
    ensures
        r@ == unix_join(dir@, name@),
{
    let d = chars_of(dir);
    let n = chars_of(name);
    if (n.len() > 0 && n[0] == '/') || d.len() == 0 {
        return owned(name);
    }
    if d[d.len() - 1] == '/' {
        return concat(dir, name);
    }
    let r = concat3(dir, "/", name);
    proof {
        reveal_strlit("/");
    }
    r
}

/// The message for an input path that has no file name.
pub open spec fn no_file_name_message(input: Seq<char>) -> Seq<char> {
    "input path has no file name: "@ + input
}

/// Where the compressed copy of `input` goes in `output_dir`: the input's
/// file name with `.zst` after it, joined to `output_dir`. Replacing the
/// joined name's extension by the input's extension followed by `.zst`
/// (see `zstd_extension`) gives that same file name, so the name is built
/// directly. An input with no file name, such as `/`, is an invalid-input
/// error; one that names a file on every platform always succeeds.
pub fn zstd_path(input: &str, output_dir: &str) -> (r: Result<String, RuntimeError>)
    ensures
        names_a_file(input@) ==> r is Ok,
        names_a_file(input@) ==> (r matches Ok(p) && p@ == unix_join(output_dir@, file_name_spec(input@) + ".zst"@)),
        input@ == "/"@ ==> r is Err,
        match r {
            Ok(_) => true,
            Err(e) => e.kind == ErrorKind::InvalidInput && e.message@ == no_file_name_message(input@),
        },
{
    match file_name_of(input) {
        None => Err(invalid_input(concat("input path has no file name: ", input))),
        Some(name) => {
            let file = concat(name.as_str(), ".zst");
            proof {
                if names_a_file(input@) {
                    if !plain_name(input@) {
                        let k = choose|k: int| name_follows(input@, k);
                        assert(name@ == input@.subrange(k + 1, input@.len() as int));
                    }
                    assert(name@ == file_name_spec(input@));
                }
            }
            Ok(join_path(output_dir, file.as_str()))
        },
    }
}

/// The artifacts of the identity map: its inputs, one for one.
pub fn identity_outputs(context: &Context) -> (r: Vec<Artifact>)
    ensures
        r@.len() == context.input_paths().len(),
        forall|i: int| 0 <= i < r@.len() ==> (#[trigger] r@[i]).0@ == context.input_paths()[i],
{
    let inputs = context.inputs();
    let mut out: Vec<Artifact> = Vec::new();
    let mut i: usize = 0;
    while i < inputs.len()
        invariant
            i <= inputs@.len() == context.input_paths().len(),
            forall|k: int| 0 <= k < inputs@.len() ==> (#[trigger] inputs@[k]).0@ == context.input_paths()[k],
            out@.len() == i,
            forall|k: int| 0 <= k < i ==> (#[trigger] out@[k]).0@ == context.input_paths()[k],
        decreases inputs@.len() - i,
    {
        out.push(Artifact::from_input(&inputs[i]));
        i = i + 1;
    }
    out
}

/// One file to compress: where it is read and where its copy goes.
#[derive(Debug)]
pub struct Compression {
    pub input: String,
    pub output: String,
}

/// What running a map takes.
#[derive(Debug)]
pub enum MapPlan {
    /// The outputs are these artifacts, and nothing is to be done.
    Done(Vec<Artifact>),
    /// Compress each file at this level; the outputs are the copies, in
    /// order.
    Compress { files: Vec<Compression>, level: i32 },
    /// Fetch each URL into the output directory.
    Fetch { urls: Vec<String>, output_dir: String },
}

/// The message for a map that cannot run here.
pub open spec fn not_implemented_message(map: ActMap) -> Seq<char> {
    map.name_spec() + " map is not implemented"@
}

/// Plans the zstd map: one compression per input, in order.
pub fn plan_compression(context: &Context) -> (r: Result<Vec<Compression>, RuntimeError>)
    ensures
        match r {
            Ok(files) => files@.len() == context.input_paths().len() && forall|i: int|
                0 <= i < files@.len() ==> (#[trigger] files@[i]).input@ == context.input_paths()[i],
            Err(e) => exists|i: int|
                0 <= i < context.input_paths().len() && e.message@ == no_file_name_message(
                    #[trigger] context.input_paths()[i],
                ),
        },
{
    let inputs = context.inputs();
    let dir = context.output_dir();
    let mut files: Vec<Compression> = Vec::new();
    let mut i: usize = 0;
    while i < inputs.len()
        invariant
            i <= inputs@.len() == context.input_paths().len(),
            forall|k: int| 0 <= k < inputs@.len() ==> (#[trigger] inputs@[k]).0@ == context.input_paths()[k],
            files@.len() == i,
            forall|k: int| 0 <= k < i ==> (#[trigger] files@[k]).input@ == context.input_paths()[k],
        decreases inputs@.len() - i,
    {
        let path = inputs[i].as_path();
        match zstd_path(path, dir) {
            Ok(output) => {
                files.push(Compression { input: owned(path), output });
            },
            Err(e) => {
                proof {
                    assert(e.message@ == no_file_name_message(context.input_paths()[i as int]));
                }
                return Err(e);
            },
        }
        i = i + 1;
    }
    Ok(files)
}

/// What running `map` over `context` takes: the identity map is done with
/// its inputs as outputs, the zstd map compresses each input into the
/// output directory, the HTTP map fetches each input, and a script map
/// cannot run here.
pub fn plan(map: ActMap, context: &Context) -> (r: Result<MapPlan, RuntimeError>)
    ensures
        map == ActMap::Run ==> (r is Err && r->Err_0.message@ == not_implemented_message(map)),
        map == ActMap::Identity ==> (r matches Ok(MapPlan::Done(outs)) && outs@.len()
            == context.input_paths().len() && forall|i: int|
            0 <= i < outs@.len() ==> (#[trigger] outs@[i]).0@ == context.input_paths()[i]),
        map == ActMap::Zstd ==> match r {
            Ok(MapPlan::Compress { files, level }) => level == context.level_spec()
                && files@.len() == context.input_paths().len() && forall|i: int|
                0 <= i < files@.len() ==> (#[trigger] files@[i]).input@ == context.input_paths()[i],
            Ok(_) => false,
            Err(e) => exists|i: int|
                0 <= i < context.input_paths().len() && e.message@ == no_file_name_message(
                    #[trigger] context.input_paths()[i],
                ),
        },
        map == ActMap::Http ==> (r matches Ok(MapPlan::Fetch { urls, output_dir }) && output_dir@
            == context.output_dir_spec() && urls@.len() == context.input_paths().len() && forall|i: int|
            0 <= i < urls@.len() ==> (#[trigger] urls@[i])@ == context.input_paths()[i]),
{
    match map {
        ActMap::Identity => Ok(MapPlan::Done(identity_outputs(context))),
        ActMap::Zstd => {
            let files = plan_compression(context)?;
            Ok(MapPlan::Compress { files, level: context.zstd_level() })
        },
        ActMap::Http => {
            let inputs = context.inputs();
            let mut urls: Vec<String> = Vec::new();
            let mut i: usize = 0;
            while i < inputs.len()
                invariant
                    i <= inputs@.len() == context.input_paths().len(),
                    forall|k: int| 0 <= k < inputs@.len() ==> (#[trigger] inputs@[k]).0@ == context.input_paths()[k],
                    urls@.len() == i,
                    forall|k: int| 0 <= k < i ==> (#[trigger] urls@[k])@ == context.input_paths()[k],
                decreases inputs@.len() - i,
            {
                urls.push(owned(inputs[i].as_str()));
                i = i + 1;
            }
            Ok(MapPlan::Fetch { urls, output_dir: owned(context.output_dir()) })
        },
        ActMap::Run => Err(invalid_input(concat("run", " map is not implemented"))),
    }
}

/// The name a fetched file is saved under: the last non-empty segment of
/// the URL's path, or `index` where there is none.
pub open spec fn fetched_name_spec(segments: Seq<Seq<char>>) -> Seq<char>
    decreases segments.len(),
{
    if segments.len() == 0 {
        "index"@
    } else if segments.last().len() > 0 {
        segments.last()
    } else {
        fetched_name_spec(segments.drop_last())
    }
}

/// The name a fetched file is saved under, from the segments of its URL's
/// path.
pub fn fetched_name(segments: &Vec<String>) -> (r: String)
    ensures
        r@ == fetched_name_spec(Seq::new(segments@.len(), |i: int| segments@[i]@)),
{
    let ghost all = Seq::new(segments@.len(), |i: int| segments@[i]@);
    let mut i: usize = segments.len();
    proof {
        assert(all.take(i as int) =~= all);
    }
    while i > 0
        invariant
            i <= segments@.len() == all.len(),
            all == Seq::new(segments@.len(), |i: int| segments@[i]@),
            fetched_name_spec(all) == fetched_name_spec(all.take(i as int)),
        decreases i,
    {
        proof {
            assert(all.take(i as int).drop_last() =~= all.take(i - 1));
            assert(all.take(i as int).last() == segments@[i - 1]@);
        }
        if segments[i - 1].as_str().unicode_len() > 0 {
            return owned(segments[i - 1].as_str());
        }
        i = i - 1;
    }
    owned("index")
}

/// What `url::Url::path_segments` gives for the URL `url` parses to, each
/// segment as text, or `None` where the URL does not parse or has no path
/// segments.
pub uninterp spec fn url_segments(url: Seq<char>) -> Option<Seq<Seq<char>>>;

/// Parses `url` with `url::Url::parse` and returns its path segments.
#[verifier::external_body]
fn path_segments(url: &str) -> (r: Option<Vec<String>>)
    ensures
        match r {
            Some(v) => url_segments(url@) == Some(Seq::new(v@.len(), |i: int| v@[i]@)),
            None => url_segments(url@) is None,
        },
{
    let parsed = match url::Url::parse(url) {
        Ok(u) => u,
        Err(_) => return None,
    };
    match parsed.path_segments() {
        Some(segments) => Some(segments.map(|s| s.to_string()).collect()),
        None => None,
    }
}

/// The name a file fetched from `url` is saved under: the last non-empty
/// segment of its path, or `index`.
pub fn url_file_name(url: &str) -> (r: String)
    ensures
        r@ == match url_segments(url@) {
            Some(segments) => fetched_name_spec(segments),
            None => "index"@,
        },
{
    match path_segments(url) {
        Some(segments) => fetched_name(&segments),
        None => owned("index"),
    }
}

} // verus!
