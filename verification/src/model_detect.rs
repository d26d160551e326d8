//! Which running processes are inference servers, and what they serve.
use crate::decimal;
use crate::float::Single;
use crate::gguf::{GgufInfo, TensorSummary};
use crate::order;
use crate::path;
use crate::text;
use vstd::prelude::*;

verus! {

/// One of two texts holds a word.
pub open spec fn either_has(p: Seq<char>, c: Seq<char>, word: Seq<char>) -> bool {
    text::has_part(p, word) || text::has_part(c, word)
}

/// A process name or a command line, in lower case, names an inference engine.
pub open spec fn mentions(p: Seq<char>, c: Seq<char>) -> bool {
    ||| either_has(p, c, "llama-server"@)
    ||| either_has(p, c, "llama-cli"@)
    ||| either_has(p, c, "llama.cpp"@)
    ||| either_has(p, c, "ollama"@)
    ||| either_has(p, c, "vllm"@)
    ||| either_has(p, c, "sglang"@)
    ||| either_has(p, c, "exllama"@)
    ||| either_has(p, c, "text-generation"@)
    ||| either_has(p, c, "aphrodite"@)
    ||| either_has(p, c, "tensorrt-llm"@)
    ||| either_has(p, c, "lmdeploy"@)
    ||| either_has(p, c, "kobold"@)
    ||| either_has(p, c, "tabbyapi"@)
    ||| either_has(p, c, "transformers"@)
    ||| either_has(p, c, ".gguf"@)
}

fn has_either(p: &[char], c: &[char], word: &str) -> (r: bool)
    ensures
        r == either_has(p@, c@, word@),
{
    text::contains(p, word) || text::contains(c, word)
}

/// Whether a process name or a command line, in lower case, names an inference
/// engine.
pub fn mentions_engine(process_name: &str, cmdline: &str) -> (r: bool)
    ensures
        r == mentions(process_name@, cmdline@),
{
    let p = text::chars_of(process_name);
    let c = text::chars_of(cmdline);
    has_either(&p, &c, "llama-server") || has_either(&p, &c, "llama-cli") || has_either(
        &p,
        &c,
        "llama.cpp",
    ) || has_either(&p, &c, "ollama") || has_either(&p, &c, "vllm") || has_either(&p, &c, "sglang")
        || has_either(&p, &c, "exllama") || has_either(&p, &c, "text-generation") || has_either(
        &p,
        &c,
        "aphrodite",
    ) || has_either(&p, &c, "tensorrt-llm") || has_either(&p, &c, "lmdeploy") || has_either(
        &p,
        &c,
        "kobold",
    ) || has_either(&p, &c, "tabbyapi") || has_either(&p, &c, "transformers") || has_either(
        &p,
        &c,
        ".gguf",
    )
}

/// The lower-case name of a program is that of an interpreter.
pub open spec fn interpreter(name: Seq<char>) -> bool {
    let base = text::strip_all_suffix(name, ".exe"@);
    ||| text::has_prefix(base, "python"@)
    ||| base == "gjs"@
    ||| base == "node"@
    ||| base == "nodejs"@
    ||| base == "ruby"@
    ||| base == "perl"@
    ||| base == "bash"@
    ||| base == "sh"@
    ||| base == "zsh"@
    ||| base == "java"@
    ||| base == "dotnet"@
    ||| base == "uv"@
    ||| base == "uvx"@
}

/// Whether the lower-case name of a program is that of an interpreter.
pub fn names_interpreter(name: &str) -> (r: bool)
    ensures
        r == interpreter(name@),
{
    let base = text::without_suffixes(&text::chars_of(name), ".exe");
    text::starts_with(&base, "python") || text::is_text(&base, "gjs") || text::is_text(
        &base,
        "node",
    ) || text::is_text(&base, "nodejs") || text::is_text(&base, "ruby") || text::is_text(
        &base,
        "perl",
    ) || text::is_text(&base, "bash") || text::is_text(&base, "sh") || text::is_text(&base, "zsh")
        || text::is_text(&base, "java") || text::is_text(&base, "dotnet") || text::is_text(
        &base,
        "uv",
    ) || text::is_text(&base, "uvx")
}

/// The file name of a path, or all of it where it has none.
pub open spec fn base_name(p: Seq<char>) -> Seq<char> {
    match path::file_name(p) {
        Some(n) => n,
        None => p,
    }
}

fn base_name_of(p: &[char]) -> (r: Vec<char>)
    ensures
        r@ == base_name(p@),
{
    match path::file_name_of(p) {
        Some(n) => n,
        None => {
            let r = text::part(p, 0, p.len());
            assert(r@ =~= p@);
            r
        },
    }
}

/// Interpreters whose `-m` means "run this module", not "load this model".
/// Without this, `python3 -m http.server` and `gjs -m …/org.gnome.Shell.js`
/// both read as inference servers.
pub fn is_interpreter(argv0: &str) -> (r: bool)
    ensures
        r == interpreter(text::lowered(base_name(argv0@))),
{
    let base = text::string_of(&base_name_of(&text::chars_of(argv0)));
    let lower = text::lower_of(base.as_str());
    names_interpreter(lower.as_str())
}

/// The name of a weights file, by its lower-case ending.
pub open spec fn weights_ending(lower: Seq<char>) -> bool {
    ||| text::has_suffix(lower, ".gguf"@)
    ||| text::has_suffix(lower, ".safetensors"@)
    ||| text::has_suffix(lower, ".bin"@)
    ||| text::has_suffix(lower, ".pt"@)
    ||| text::has_suffix(lower, ".pth"@)
    ||| text::has_suffix(lower, ".onnx"@)
}

fn ends_as_weights(low: &[char]) -> (r: bool)
    ensures
        r == weights_ending(low@),
{
    text::ends_with(low, ".gguf") || text::ends_with(low, ".safetensors") || text::ends_with(
        low,
        ".bin",
    ) || text::ends_with(low, ".pt") || text::ends_with(low, ".pth") || text::ends_with(
        low,
        ".onnx",
    )
}

/// Written as a place in the file system.
pub open spec fn is_place(v: Seq<char>) -> bool {
    v.len() > 0 && (v[0] == '/' || v[0] == '.' || v[0] == '~')
}

/// Written as `org/name`, the form of a model hub. The name may hold a dot, as in
/// `Qwen/Qwen2.5-7B-Instruct`; the organisation holds none.
pub open spec fn is_hub_id(v: Seq<char>) -> bool {
    text::count_char(v, '/') == 1 && text::count_char(text::before(v, "/"@), '.') == 0
        && text::utf8_size(v) > 3
}

/// What is plausibly a model: a weights file, a directory, or a hub id. `lower`
/// is the lower case of `v`, and `dirs` lists the places that are directories.
pub open spec fn model_ref(v: Seq<char>, lower: Seq<char>, dirs: Seq<Seq<char>>) -> bool {
    weights_ending(lower) || if is_place(v) {
        dirs.contains(v)
    } else {
        is_hub_id(v)
    }
}

/// Whether an argument is plausibly a model, given its lower case.
pub fn refers_to_model(v: &str, lower: &str, dirs: &[String]) -> (r: bool)
    ensures
        r == model_ref(v@, lower@, text::strings(dirs@)),
{
    if ends_as_weights(&text::chars_of(lower)) {
        return true;
    }
    let v = text::chars_of(v);
    if v.len() > 0 && (v[0] == '/' || v[0] == '.' || v[0] == '~') {
        // A bare directory of weights counts; a random file on disk does not.
        return text::is_among(&v, dirs);
    }
    text::count_of(&v, '/') == 1 && text::count_of(&text::cut_before(&v, "/"), '.') == 0
        && text::utf8_size_of(&v) > 3
}

/// Whether a `--model` / `-m` argument points at something that is plausibly
/// a model: a weights file, a directory among `dirs`, or a HuggingFace-style id.
pub fn is_model_ref(v: &str, dirs: &[String]) -> (r: bool)
    ensures
        r == model_ref(v@, text::lowered(v@), text::strings(dirs@)),
{
    let lower = text::lower_of(v);
    refers_to_model(v, lower.as_str(), dirs)
}

/// The model that the argument at `i` names, if it names one: what follows
/// `--model=` or `--model-path=`, or the argument after a model flag. `-m` is a
/// model flag where the program is no interpreter.
pub open spec fn model_argument(toks: Seq<Seq<char>>, i: int, interpreter: bool) -> Option<
    Seq<char>,
> {
    let t = toks[i];
    if text::has_prefix(t, "--model="@) {
        Some(t.skip("--model="@.len() as int))
    } else if text::has_prefix(t, "--model-path="@) {
        Some(t.skip("--model-path="@.len() as int))
    } else if (t == "--model"@ || t == "--model-path"@ || (t == "-m"@ && !interpreter)) && i + 1
        < toks.len() {
        Some(toks[i + 1])
    } else {
        None
    }
}

/// The program of a command line is an interpreter.
pub open spec fn runs_interpreter(toks: Seq<Seq<char>>) -> bool {
    toks.len() > 0 && interpreter(text::lowered(base_name(toks[0])))
}

/// A command line names a model in one of its arguments.
pub open spec fn names_model(cmdline: Seq<char>, dirs: Seq<Seq<char>>) -> bool {
    let toks = text::words(cmdline);
    exists|i: int|
        0 <= i < toks.len() && (#[trigger] model_argument(toks, i, runs_interpreter(toks)) matches Some(v)
            && model_ref(v, text::lowered(v), dirs))
}

fn argument(toks: &Vec<Vec<char>>, i: usize, interpreter: bool) -> (r: Option<Vec<char>>)
    requires
        i < toks.len(),
    ensures
        r is Some <==> model_argument(text::texts(toks@), i as int, interpreter) is Some,
        r matches Some(v) ==> model_argument(text::texts(toks@), i as int, interpreter) == Some(v@),
{
    let ghost all = text::texts(toks@);
    let t = &toks[i];
    assert(all[i as int] == t@);
    if let Some(v) = text::after_prefix(t, "--model=") {
        return Some(v);
    }
    if let Some(v) = text::after_prefix(t, "--model-path=") {
        return Some(v);
    }
    if (text::is_text(t, "--model") || text::is_text(t, "--model-path") || (text::is_text(t, "-m")
        && !interpreter)) && i + 1 < toks.len() {
        let v = text::part(&toks[i + 1], 0, toks[i + 1].len());
        assert(all[i + 1] == toks@[i + 1]@);
        assert(v@ =~= all[i + 1]);
        return Some(v);
    }
    None
}

fn first_is_interpreter(toks: &Vec<Vec<char>>) -> (r: bool)
    ensures
        r == runs_interpreter(text::texts(toks@)),
{
    if toks.len() == 0 {
        return false;
    }
    assert(text::texts(toks@)[0] == toks@[0]@);
    let first = text::string_of(&toks[0]);
    is_interpreter(first.as_str())
}

/// Last-resort match for engines not in the keyword list: a command line that
/// actually names a model file.
pub fn names_a_model(cmdline: &str, dirs: &[String]) -> (r: bool)
    ensures
        r == names_model(cmdline@, text::strings(dirs@)),
{
    let toks = text::words_of(&text::chars_of(cmdline));
    let ghost all = text::texts(toks@);
    let ghost places = text::strings(dirs@);
    let interpreter = first_is_interpreter(&toks);
    let mut i: usize = 0;
    while i < toks.len()
        invariant
            i <= toks.len(),
            all == text::texts(toks@),
            all == text::words(cmdline@),
            places == text::strings(dirs@),
            interpreter == runs_interpreter(all),
            forall|j: int|
                0 <= j < i ==> !(#[trigger] model_argument(all, j, interpreter) matches Some(v)
                    && model_ref(v, text::lowered(v), places)),
        decreases toks.len() - i,
    {
        if let Some(v) = argument(&toks, i, interpreter) {
            let v = text::string_of(&v);
            if is_model_ref(v.as_str(), dirs) {
                return true;
            }
        }
        i += 1;
    }
    false
}

/// The places that a command line names as models: those whose being a directory
/// decides whether it names a model.
pub open spec fn places_named(cmdline: Seq<char>, n: int) -> Seq<Seq<char>>
    decreases n,
{
    if n <= 0 {
        Seq::empty()
    } else {
        let toks = text::words(cmdline);
        let before = places_named(cmdline, n - 1);
        match model_argument(toks, n - 1, runs_interpreter(toks)) {
            Some(v) => if is_place(v) && !weights_ending(text::lowered(v)) {
                before.push(v)
            } else {
                before
            },
            None => before,
        }
    }
}

/// The places of a command line that are to be looked up in the file system.
pub fn model_places(cmdline: &str) -> (r: Vec<String>)
    ensures
        text::strings(r@) == places_named(cmdline@, text::words(cmdline@).len() as int),
{
    let toks = text::words_of(&text::chars_of(cmdline));
    let ghost all = text::texts(toks@);
    let interpreter = first_is_interpreter(&toks);
    let none: Vec<String> = Vec::new();
    let mut out: Vec<String> = Vec::new();
    let mut i: usize = 0;
    assert(text::strings(out@) =~= Seq::<Seq<char>>::empty());
    while i < toks.len()
        invariant
            i <= toks.len(),
            all == text::texts(toks@),
            all == text::words(cmdline@),
            interpreter == runs_interpreter(all),
            text::strings(out@) == places_named(cmdline@, i as int),
            none@.len() == 0,
        decreases toks.len() - i,
    {
        if let Some(v) = argument(&toks, i, interpreter) {
            let s = text::string_of(&v);
            let placed = v.len() > 0 && (v[0] == '/' || v[0] == '.' || v[0] == '~');
            if placed && !is_model_ref(s.as_str(), none.as_slice()) {
                let ghost before = text::strings(out@);
                out.push(s);
                assert(text::strings(out@) =~= before.push(v@));
            }
        }
        i += 1;
    }
    out
}

/// A process is an inference server, by its name, its command line and the
/// directories that the latter names.
pub open spec fn is_llm(process_name: Seq<char>, cmdline: Seq<char>, dirs: Seq<Seq<char>>) -> bool {
    mentions(text::lowered(process_name), text::lowered(cmdline)) || names_model(cmdline, dirs)
}

/// Whether a process is an inference server.
pub fn looks_like_llm(process_name: &str, cmdline: &str, dirs: &[String]) -> (r: bool)
    ensures
        r == is_llm(process_name@, cmdline@, text::strings(dirs@)),
{
    let p = text::lower_of(process_name);
    let c = text::lower_of(cmdline);
    mentions_engine(p.as_str(), c.as_str()) || names_a_model(cmdline, dirs)
}

/// Only the places that a command line names matter to what it names: two lists
/// of directories that agree on those decide alike.
pub proof fn only_named_places_matter(cmdline: Seq<char>, a: Seq<Seq<char>>, b: Seq<Seq<char>>)
    requires
        forall|v: Seq<char>|
            #![trigger a.contains(v)]
            #![trigger b.contains(v)]
            places_named(cmdline, text::words(cmdline).len() as int).contains(v) ==> a.contains(v)
                == b.contains(v),
    ensures
        names_model(cmdline, a) == names_model(cmdline, b),
{
    let toks = text::words(cmdline);
    let interpreter = runs_interpreter(toks);
    assert forall|i: int| 0 <= i < toks.len() implies (#[trigger] model_argument(
        toks,
        i,
        interpreter,
    ) matches Some(v) ==> model_ref(v, text::lowered(v), a) == model_ref(
        v,
        text::lowered(v),
        b,
    )) by {
        if let Some(v) = model_argument(toks, i, interpreter) {
            if is_place(v) && !weights_ending(text::lowered(v)) {
                lemma_place_listed(cmdline, i, toks.len() as int);
            }
        }
    }
    if names_model(cmdline, a) {
        let i = choose|i: int|
            0 <= i < toks.len() && (#[trigger] model_argument(toks, i, interpreter) matches Some(v)
                && model_ref(v, text::lowered(v), a));
        assert(model_argument(toks, i, interpreter) is Some);
    }
}

proof fn lemma_place_listed(cmdline: Seq<char>, i: int, n: int)
    requires
        0 <= i < n,
        model_argument(text::words(cmdline), i, runs_interpreter(text::words(cmdline))) matches Some(v)
            && is_place(v) && !weights_ending(text::lowered(v)),
    ensures
        places_named(cmdline, n).contains(
            model_argument(text::words(cmdline), i, runs_interpreter(text::words(cmdline)))->0,
        ),
    decreases n,
{
    let toks = text::words(cmdline);
    let v = model_argument(toks, i, runs_interpreter(toks))->0;
    let before = places_named(cmdline, n - 1);
    if i == n - 1 {
        assert(places_named(cmdline, n)[before.len() as int] == v);
    } else {
        lemma_place_listed(cmdline, i, n - 1);
        let k = choose|k: int| 0 <= k < before.len() && before[k] == v;
        assert(places_named(cmdline, n)[k] == v);
    }
}

/// The engine that a lower-case text names.
pub open spec fn engine_in(lower: Seq<char>) -> Seq<char> {
    if text::has_part(lower, "llama-server"@) || text::has_part(lower, "llama.cpp"@) {
        "llama.cpp"@
    } else if text::has_part(lower, "ollama"@) {
        "ollama"@
    } else if text::has_part(lower, "vllm"@) {
        "vllm"@
    } else if text::has_part(lower, "sglang"@) {
        "sglang"@
    } else if text::has_part(lower, "exllama"@) {
        "exllamav2"@
    } else {
        "llm"@
    }
}

/// The engine of a process.
pub open spec fn engine(process_name: Seq<char>, cmdline: Seq<char>) -> Seq<char> {
    engine_in(text::lowered(process_name + " "@ + cmdline))
}

/// The engine that a lower-case text names.
pub fn engine_named(lower: &str) -> (r: String)
    ensures
        r@ == engine_in(lower@),
{
    let blob = text::chars_of(lower);
    if text::contains(&blob, "llama-server") || text::contains(&blob, "llama.cpp") {
        "llama.cpp".to_owned()
    } else if text::contains(&blob, "ollama") {
        "ollama".to_owned()
    } else if text::contains(&blob, "vllm") {
        "vllm".to_owned()
    } else if text::contains(&blob, "sglang") {
        "sglang".to_owned()
    } else if text::contains(&blob, "exllama") {
        "exllamav2".to_owned()
    } else {
        "llm".to_owned()
    }
}

/// The engine of a process.
pub fn engine_from(process_name: &str, cmdline: &str) -> (r: String)
    ensures
        r@ == engine(process_name@, cmdline@),
{
    let mut blob = text::chars_of(process_name);
    text::add_str(&mut blob, " ");
    text::add_str(&mut blob, cmdline);
    let blob = text::string_of(&blob);
    let lower = text::lower_of(blob.as_str());
    engine_named(lower.as_str())
}

/// A command-line option that describes what a server serves.
#[derive(Clone, Copy, Debug, PartialEq, Eq, Structural)]
pub enum ServerOption {
    Model,
    Alias,
    Port,
    Context,
    SpecType,
    GpuLayers,
    TensorSplit,
}

/// The option that a key stands for.
pub open spec fn option_named(key: Seq<char>) -> Option<ServerOption> {
    if key == "--model"@ || key == "-m"@ || key == "--model-path"@ {
        Some(ServerOption::Model)
    } else if key == "--alias"@ {
        Some(ServerOption::Alias)
    } else if key == "--port"@ {
        Some(ServerOption::Port)
    } else if key == "--ctx-size"@ || key == "--ctx_size"@ || key == "-c"@ {
        Some(ServerOption::Context)
    } else if key == "--spec-type"@ || key == "--spec_type"@ {
        Some(ServerOption::SpecType)
    } else if key == "--n-gpu-layers"@ || key == "-ngl"@ {
        Some(ServerOption::GpuLayers)
    } else if key == "--tensor-split"@ || key == "--tensor_split"@ {
        Some(ServerOption::TensorSplit)
    } else {
        None
    }
}

fn option_of(key: &[char]) -> (r: Option<ServerOption>)
    ensures
        r == option_named(key@),
{
    if text::is_text(key, "--model") || text::is_text(key, "-m") || text::is_text(
        key,
        "--model-path",
    ) {
        Some(ServerOption::Model)
    } else if text::is_text(key, "--alias") {
        Some(ServerOption::Alias)
    } else if text::is_text(key, "--port") {
        Some(ServerOption::Port)
    } else if text::is_text(key, "--ctx-size") || text::is_text(key, "--ctx_size") || text::is_text(
        key,
        "-c",
    ) {
        Some(ServerOption::Context)
    } else if text::is_text(key, "--spec-type") || text::is_text(key, "--spec_type") {
        Some(ServerOption::SpecType)
    } else if text::is_text(key, "--n-gpu-layers") || text::is_text(key, "-ngl") {
        Some(ServerOption::GpuLayers)
    } else if text::is_text(key, "--tensor-split") || text::is_text(key, "--tensor_split") {
        Some(ServerOption::TensorSplit)
    } else {
        None
    }
}

/// What a command line says of the server, as mathematical values.
pub struct Described {
    pub name: Seq<char>,
    pub path: Option<Seq<char>>,
    pub port: Option<u16>,
    pub ctx_max: Option<usize>,
    pub spec_type: Option<Seq<char>>,
    pub n_gpu_layers: Option<u32>,
    pub tensor_split: Seq<Single>,
}

pub open spec fn nothing_described() -> Described {
    Described {
        name: Seq::empty(),
        path: None,
        port: None,
        ctx_max: None,
        spec_type: None,
        n_gpu_layers: None,
        tensor_split: Seq::empty(),
    }
}

/// The name that a model goes by from its path.
pub open spec fn model_name(v: Seq<char>) -> Seq<char> {
    match path::file_stem(v) {
        Some(s) => s,
        None => v,
    }
}

/// The numbers among the first `n` pieces of a list.
pub open spec fn numbers_in(pieces: Seq<Seq<char>>, n: int) -> Seq<Single>
    decreases n,
{
    if n <= 0 {
        Seq::empty()
    } else {
        match decimal::number(text::trimmed(pieces[n - 1])) {
            Some(x) => numbers_in(pieces, n - 1).push(x),
            None => numbers_in(pieces, n - 1),
        }
    }
}

/// The proportions in a list between commas.
pub open spec fn proportions(v: Seq<char>) -> Seq<Single> {
    let pieces = text::split_on(v, ',');
    numbers_in(pieces, pieces.len() as int)
}

impl Described {
    /// The description once an option has been given a value.
    pub open spec fn with(self, option: ServerOption, v: Seq<char>) -> Described {
        match option {
            ServerOption::Model => Described { name: model_name(v), path: Some(v), ..self },
            ServerOption::Alias => Described { name: v, ..self },
            ServerOption::Port => Described {
                port: match text::unsigned(v, u16::MAX as nat) {
                    Some(n) => Some(n as u16),
                    None => None,
                },
                ..self
            },
            ServerOption::Context => Described {
                ctx_max: match text::unsigned(v, usize::MAX as nat) {
                    Some(n) => Some(n as usize),
                    None => None,
                },
                ..self
            },
            ServerOption::SpecType => Described { spec_type: Some(v), ..self },
            ServerOption::GpuLayers => Described {
                n_gpu_layers: match text::unsigned(v, u32::MAX as nat) {
                    Some(n) => Some(n as u32),
                    None => None,
                },
                ..self
            },
            ServerOption::TensorSplit => Described { tensor_split: proportions(v), ..self },
        }
    }
}

/// The key of an argument: what stands before its first `=`.
pub open spec fn key_of(t: Seq<char>) -> Seq<char> {
    text::before(t, "="@)
}

/// The value that an argument carries itself: what follows its first `=`.
pub open spec fn inline_of(t: Seq<char>) -> Option<Seq<char>> {
    if text::has_part(t, "="@) {
        Some(t.skip(text::first_at(t, "="@, 0) + 1))
    } else {
        None
    }
}

/// The value of the argument at `i`: the one it carries, else the next argument.
pub open spec fn value_of(toks: Seq<Seq<char>>, i: int) -> Option<Seq<char>> {
    match inline_of(toks[i]) {
        Some(v) => Some(v),
        None => if i + 1 < toks.len() {
            Some(toks[i + 1])
        } else {
            None
        },
    }
}

/// The description after the arguments from `i` on: options apply from left to
/// right, so a later one wins.
pub open spec fn described_from(toks: Seq<Seq<char>>, i: int, so_far: Described) -> Described
    decreases toks.len() - i,
{
    if i >= toks.len() {
        so_far
    } else {
        match (option_named(key_of(toks[i])), value_of(toks, i)) {
            (Some(option), Some(v)) => described_from(
                toks,
                if inline_of(toks[i]) is Some {
                    i + 1
                } else {
                    i + 2
                },
                so_far.with(option, v),
            ),
            _ => described_from(toks, i + 1, so_far),
        }
    }
}

/// Written as the path of a model: with a slash, or as a weights file.
pub open spec fn is_path_shaped(t: Seq<char>) -> bool {
    text::has_part(t, "/"@) || weights_ending(text::lowered(t))
}

/// What the words that are neither options nor their values have told so far.
pub struct Positional {
    /// A subcommand that serves a model has come.
    pub served: bool,
    /// The last word was an option that may take the next one for its value.
    pub pending: bool,
    /// The first path-shaped word after the subcommand.
    pub place: Option<Seq<char>>,
}

impl Positional {
    /// Once a word has come that is neither one of the options that describe a
    /// server nor the value of one.
    pub open spec fn after(self, t: Seq<char>) -> Positional {
        if t.len() > 0 && t[0] == '-' {
            Positional { pending: inline_of(t) is None, ..self }
        } else if t == "serve"@ || t == "api-server"@ {
            Positional { served: true, pending: false, ..self }
        } else if self.served && !self.pending && self.place is None && is_path_shaped(t) {
            Positional { pending: false, place: Some(t), ..self }
        } else {
            Positional { pending: false, ..self }
        }
    }
}

/// What the words from `i` on tell by their place.
pub open spec fn positional_from(toks: Seq<Seq<char>>, i: int, so_far: Positional) -> Positional
    decreases toks.len() - i,
{
    if i >= toks.len() {
        so_far
    } else if option_named(key_of(toks[i])) is Some && value_of(toks, i) is Some {
        positional_from(
            toks,
            if inline_of(toks[i]) is Some {
                i + 1
            } else {
                i + 2
            },
            Positional { pending: false, ..so_far },
        )
    } else {
        positional_from(toks, i + 1, so_far.after(toks[i]))
    }
}

pub open spec fn nothing_placed() -> Positional {
    Positional { served: false, pending: false, place: None }
}

/// What the arguments of a command line say: its options and, where none of them
/// gave a path, the path-shaped word after `serve` or `api-server`. The program
/// itself comes before those and is never the path.
pub open spec fn told(toks: Seq<Seq<char>>) -> Described {
    let d = described_from(toks, 0, nothing_described());
    match (d.path, positional_from(toks, 0, nothing_placed()).place) {
        (None, Some(v)) => Described {
            name: if d.name.len() == 0 {
                model_name(v)
            } else {
                d.name
            },
            path: Some(v),
            ..d
        },
        _ => d,
    }
}

/// The description with what the process itself gives where the arguments gave
/// nothing: its name, and the engine's usual port.
pub open spec fn completed(d: Described, process_name: Seq<char>, engine: Seq<char>) -> Described {
    Described {
        name: if d.name.len() == 0 {
            base_name(process_name)
        } else {
            d.name
        },
        port: if d.port is None && engine == "llama.cpp"@ {
            Some(8080u16)
        } else if d.port is None && engine == "ollama"@ {
            Some(11434u16)
        } else {
            d.port
        },
        ..d
    }
}

/// What a process's command line says of the server.
pub open spec fn description(process_name: Seq<char>, cmdline: Seq<char>) -> Described {
    completed(told(text::words(cmdline)), process_name, engine(process_name, cmdline))
}

/// What a command line says of the server.
#[derive(Clone, Debug)]
pub struct ParsedCmd {
    pub name: String,
    pub path: Option<String>,
    pub engine: String,
    pub port: Option<u16>,
    pub ctx_max: Option<usize>,
    pub spec_type: Option<String>,
    pub n_gpu_layers: Option<u32>,
    /// The proportions of `--tensor-split`.
    pub tensor_split: Vec<Single>,
}

/// The characters of a string that may be missing.
pub open spec fn text_in(s: Option<String>) -> Option<Seq<char>> {
    match s {
        Some(s) => Some(s@),
        None => None,
    }
}

impl ParsedCmd {
    pub open spec fn described(self) -> Described {
        Described {
            name: self.name@,
            path: text_in(self.path),
            port: self.port,
            ctx_max: self.ctx_max,
            spec_type: text_in(self.spec_type),
            n_gpu_layers: self.n_gpu_layers,
            tensor_split: self.tensor_split@,
        }
    }

    /// Sets what an option says.
    fn set(&mut self, option: ServerOption, v: &[char])
        ensures
            final(self).described() == old(self).described().with(option, v@),
            final(self).engine@ == old(self).engine@,
    {
        let ghost before = self.described();
        match option {
            ServerOption::Model => {
                self.name = match path::file_stem_of(v) {
                    Some(s) => text::string_of(&s),
                    None => text::string_of(v),
                };
                self.path = Some(text::string_of(v));
            },
            ServerOption::Alias => {
                self.name = text::string_of(v);
            },
            ServerOption::Port => {
                self.port = match text::parse_unsigned(v, u16::MAX as u64) {
                    Some(n) => Some(n as u16),
                    None => None,
                };
            },
            ServerOption::Context => {
                self.ctx_max = match text::parse_unsigned(v, usize::MAX as u64) {
                    Some(n) => Some(n as usize),
                    None => None,
                };
            },
            ServerOption::SpecType => {
                self.spec_type = Some(text::string_of(v));
            },
            ServerOption::GpuLayers => {
                self.n_gpu_layers = match text::parse_unsigned(v, u32::MAX as u64) {
                    Some(n) => Some(n as u32),
                    None => None,
                };
            },
            ServerOption::TensorSplit => {
                self.tensor_split = proportions_of(v);
            },
        }
        assert(self.described() == before.with(option, v@));
    }
}

/// The proportions in a list between commas.
fn proportions_of(v: &[char]) -> (r: Vec<Single>)
    ensures
        r@ == proportions(v@),
{
    let pieces = text::split(v, ',');
    let ghost all = text::texts(pieces@);
    let mut out: Vec<Single> = Vec::new();
    let mut i: usize = 0;
    assert(out@ =~= Seq::<Single>::empty());
    while i < pieces.len()
        invariant
            i <= pieces.len(),
            all == text::texts(pieces@),
            out@ == numbers_in(all, i as int),
        decreases pieces.len() - i,
    {
        assert(all[i as int] == pieces@[i as int]@);
        if let Some(x) = decimal::parse_number(&text::trim(&pieces[i])) {
            out.push(x);
        }
        i += 1;
    }
    out
}

/// The key of an argument and the value that it carries itself.
fn split_once(t: &[char]) -> (r: (Vec<char>, Option<Vec<char>>))
    ensures
        r.0@ == key_of(t@),
        r.1 is Some <==> inline_of(t@) is Some,
        r.1 matches Some(v) ==> inline_of(t@) == Some(v@),
{
    let eq = text::chars_of("=");
    proof {
        reveal_strlit("=");
        assert(eq@.len() == 1);
    }
    let n: usize = t.len();
    match text::find(t, &eq) {
        Some(i) => {
            let v = text::part(t, i + 1, n);
            assert(v@ =~= t@.skip(i + 1));
            let k = text::part(t, 0, i);
            assert(k@ =~= t@.take(i as int));
            (k, Some(v))
        },
        None => {
            let k = text::part(t, 0, t.len());
            assert(k@ =~= t@);
            (k, None)
        },
    }
}

/// What the words that are neither options nor their values have told so far.
struct Places {
    served: bool,
    pending: bool,
    place: Option<Vec<char>>,
}

impl Places {
    spec fn told(self) -> Positional {
        Positional {
            served: self.served,
            pending: self.pending,
            place: match self.place {
                Some(v) => Some(v@),
                None => None,
            },
        }
    }

    /// Takes a word that is neither one of the options that describe a server nor
    /// the value of one.
    fn take(&mut self, t: &[char], carries_value: bool)
        requires
            carries_value == inline_of(t@) is Some,
        ensures
            final(self).told() == old(self).told().after(t@),
    {
        let free = self.served && !self.pending && self.place.is_none();
        if t.len() > 0 && t[0] == '-' {
            self.pending = !carries_value;
            return;
        }
        self.pending = false;
        if text::is_text(t, "serve") || text::is_text(t, "api-server") {
            self.served = true;
        } else if free && path_shaped(t) {
            let v = text::part(t, 0, t.len());
            assert(v@ =~= t@);
            self.place = Some(v);
        }
    }
}

fn path_shaped(t: &[char]) -> (r: bool)
    ensures
        r == is_path_shaped(t@),
{
    if text::contains(t, "/") {
        return true;
    }
    let low = text::chars_of(text::lower_of(text::string_of(t).as_str()).as_str());
    ends_as_weights(&low)
}

/// Reads what a command line says of the server.
pub fn parse_cmdline(process_name: &str, cmdline: &str) -> (r: ParsedCmd)
    ensures
        r.described() == description(process_name@, cmdline@),
        r.engine@ == engine(process_name@, cmdline@),
{
    let tokens = text::words_of(&text::chars_of(cmdline));
    let ghost all = text::texts(tokens@);
    let mut parsed = ParsedCmd {
        name: String::new(),
        path: None,
        engine: engine_from(process_name, cmdline),
        port: None,
        ctx_max: None,
        spec_type: None,
        n_gpu_layers: None,
        tensor_split: Vec::new(),
    };
    proof {
        assert(parsed.name@ =~= Seq::<char>::empty());
        assert(parsed.tensor_split@ =~= Seq::<Single>::empty());
        assert(parsed.described() == nothing_described());
    }
    let mut places = Places { served: false, pending: false, place: None };
    let mut i: usize = 0;
    while i < tokens.len()
        invariant
            i <= tokens.len(),
            all == text::texts(tokens@),
            parsed.engine@ == engine(process_name@, cmdline@),
            described_from(all, i as int, parsed.described()) == described_from(
                all,
                0,
                nothing_described(),
            ),
            positional_from(all, i as int, places.told()) == positional_from(
                all,
                0,
                nothing_placed(),
            ),
        decreases tokens.len() - i,
    {
        assert(all[i as int] == tokens@[i as int]@);
        let (key, inline) = split_once(&tokens[i]);
        match option_of(&key) {
            None => {
                places.take(&tokens[i], inline.is_some());
                i += 1;
            },
            Some(option) => match inline {
                Some(v) => {
                    parsed.set(option, &v);
                    places.pending = false;
                    i += 1;
                },
                None => if i + 1 < tokens.len() {
                    assert(all[i + 1] == tokens@[i + 1]@);
                    parsed.set(option, &tokens[i + 1]);
                    places.pending = false;
                    i += 2;
                } else {
                    places.take(&tokens[i], false);
                    i += 1;
                },
            },
        }
    }
    if parsed.path.is_none() {
        if let Some(v) = places.place {
            if text::chars_of(parsed.name.as_str()).len() == 0 {
                parsed.name = match path::file_stem_of(&v) {
                    Some(s) => text::string_of(&s),
                    None => text::string_of(&v),
                };
            }
            parsed.path = Some(text::string_of(&v));
        }
    }
    let ghost before = parsed.described();
    assert(before == told(all));
    if text::chars_of(parsed.name.as_str()).len() == 0 {
        parsed.name = text::string_of(&base_name_of(&text::chars_of(process_name)));
    }
    if parsed.port.is_none() && text::same_str(parsed.engine.as_str(), "llama.cpp") {
        parsed.port = Some(8080);
    }
    if parsed.port.is_none() && text::same_str(parsed.engine.as_str(), "ollama") {
        parsed.port = Some(11434);
    }
    assert(parsed.described() == completed(before, process_name@, parsed.engine@)) by {
        reveal_strlit("ollama");
        reveal_strlit("llama.cpp");
    }
    parsed
}

/// The last of the words from `i` on is an option that waits for its value.
pub open spec fn waits(toks: Seq<Seq<char>>, i: int) -> bool
    decreases toks.len() - i,
{
    if i >= toks.len() {
        false
    } else if option_named(key_of(toks[i])) is Some && inline_of(toks[i]) is None {
        i + 1 == toks.len() || waits(toks, i + 2)
    } else {
        waits(toks, i + 1)
    }
}

/// Words that leave no option waiting are read alike, whatever follows them.
pub(crate) proof fn lemma_read_front(
    a: Seq<Seq<char>>,
    rest: Seq<Seq<char>>,
    i: int,
    d: Described,
    p: Positional,
)
    requires
        0 <= i <= a.len(),
        !waits(a, i),
    ensures
        described_from(a + rest, i, d) == described_from(
            a + rest,
            a.len() as int,
            described_from(a, i, d),
        ),
        positional_from(a + rest, i, p) == positional_from(
            a + rest,
            a.len() as int,
            positional_from(a, i, p),
        ),
    decreases a.len() - i,
{
    if i < a.len() {
        let all = a + rest;
        assert(all[i] == a[i]);
        if let Some(option) = option_named(key_of(a[i])) {
            if inline_of(a[i]) is None {
                assert(all[i + 1] == a[i + 1]);
                let v = a[i + 1];
                lemma_read_front(
                    a,
                    rest,
                    i + 2,
                    d.with(option, v),
                    Positional { pending: false, ..p },
                );
            } else {
                let v = inline_of(a[i])->0;
                lemma_read_front(
                    a,
                    rest,
                    i + 1,
                    d.with(option, v),
                    Positional { pending: false, ..p },
                );
            }
        } else {
            lemma_read_front(a, rest, i + 1, d, p.after(a[i]));
        }
    }
}

/// The words after some others are read as if they stood alone.
proof fn lemma_read_back(
    front: Seq<Seq<char>>,
    b: Seq<Seq<char>>,
    j: int,
    d: Described,
    p: Positional,
)
    requires
        0 <= j,
    ensures
        described_from(front + b, front.len() + j, d) == described_from(b, j, d),
        positional_from(front + b, front.len() + j, p) == positional_from(b, j, p),
    decreases b.len() - j,
{
    if j < b.len() {
        let all = front + b;
        let n = front.len() as int;
        assert(all[n + j] == b[j]);
        if j + 1 < b.len() {
            assert(all[n + j + 1] == b[j + 1]);
        }
        assert(value_of(all, n + j) == value_of(b, j));
        match (option_named(key_of(b[j])), value_of(b, j)) {
            (Some(option), Some(v)) => {
                let step = if inline_of(b[j]) is Some {
                    1int
                } else {
                    2
                };
                lemma_read_back(
                    front,
                    b,
                    j + step,
                    d.with(option, v),
                    Positional { pending: false, ..p },
                );
            },
            _ => {
                lemma_read_back(front, b, j + 1, d, p.after(b[j]));
            },
        }
    }
}

/// The name of an option is one word, without an equals sign.
pub(crate) proof fn lemma_option_names(f: Seq<char>)
    requires
        option_named(f) is Some,
    ensures
        text::is_word(f),
        forall|i: int| 0 <= i < f.len() ==> #[trigger] f[i] != '=',
        text::is_ascii(f),
{
    reveal_strlit("--model");
    reveal_strlit("-m");
    reveal_strlit("--model-path");
    reveal_strlit("--alias");
    reveal_strlit("--port");
    reveal_strlit("--ctx-size");
    reveal_strlit("--ctx_size");
    reveal_strlit("-c");
    reveal_strlit("--spec-type");
    reveal_strlit("--spec_type");
    reveal_strlit("--n-gpu-layers");
    reveal_strlit("-ngl");
    reveal_strlit("--tensor-split");
    reveal_strlit("--tensor_split");
}

/// The key and the value of a word that carries both.
pub(crate) proof fn lemma_carried(f: Seq<char>, v: Seq<char>)
    requires
        forall|i: int| 0 <= i < f.len() ==> #[trigger] f[i] != '=',
    ensures
        key_of(f + "="@ + v) == f,
        inline_of(f + "="@ + v) == Some(v),
        key_of(f) == f,
        inline_of(f) is None,
{
    reveal_strlit("=");
    let eq = "="@;
    let w = f + eq + v;
    assert forall|i: int| 0 <= i < f.len() implies !text::has_at(w, eq, i) && !text::has_at(
        f,
        eq,
        i,
    ) by {
        assert(w[i] == f[i]);
        if text::has_at(w, eq, i) {
            assert(w.subrange(i, i + 1)[0] == eq[0]);
        }
        if text::has_at(f, eq, i) {
            assert(f.subrange(i, i + 1)[0] == eq[0]);
        }
    }
    assert(w.subrange(f.len() as int, f.len() as int + 1) =~= eq);
    assert(text::has_at(w, eq, f.len() as int));
    lemma_first_found(w, eq, 0, f.len() as int);
    assert(w.take(f.len() as int) =~= f);
    assert(w.skip(f.len() as int + 1) =~= v);
    assert(!text::has_part(f, eq));
}

proof fn lemma_first_found(s: Seq<char>, p: Seq<char>, i: int, k: int)
    requires
        0 <= i <= k <= s.len(),
        text::has_at(s, p, k),
        forall|j: int| i <= j < k ==> !text::has_at(s, p, j),
    ensures
        text::first_at(s, p, i) == k,
    decreases k - i,
{
    if i < k {
        lemma_first_found(s, p, i + 1, k);
    }
}

/// Two texts that differ at one place, a space in the one and an equals sign in
/// the other, hold the same words that hold neither.
proof fn lemma_same_parts(s: Seq<char>, t: Seq<char>, at: int, word: Seq<char>)
    requires
        s.len() == t.len(),
        0 <= at < s.len(),
        forall|i: int| 0 <= i < s.len() && i != at ==> #[trigger] s[i] == t[i],
        s[at] == ' ' || s[at] == '=',
        t[at] == ' ' || t[at] == '=',
        forall|i: int| 0 <= i < word.len() ==> #[trigger] word[i] != ' ' && word[i] != '=',
    ensures
        text::has_part(s, word) == text::has_part(t, word),
{
    assert forall|i: int| text::has_at(s, word, i) == text::has_at(t, word, i) by {
        if 0 <= i && i + word.len() <= s.len() {
            let a = s.subrange(i, i + word.len());
            let b = t.subrange(i, i + word.len());
            if i <= at < i + word.len() {
                assert(a[at - i] == s[at]);
                assert(b[at - i] == t[at]);
                assert(word[at - i] != ' ' && word[at - i] != '=');
            } else {
                assert(a =~= b);
            }
        }
    }
    if text::has_part(s, word) {
        let i = choose|i: int| text::has_at(s, word, i);
        assert(text::has_at(t, word, i));
    }
    if text::has_part(t, word) {
        let i = choose|i: int| text::has_at(t, word, i);
        assert(text::has_at(s, word, i));
    }
}

proof fn lemma_same_engine(s: Seq<char>, t: Seq<char>, at: int)
    requires
        s.len() == t.len(),
        0 <= at < s.len(),
        forall|i: int| 0 <= i < s.len() && i != at ==> #[trigger] s[i] == t[i],
        s[at] == ' ' || s[at] == '=',
        t[at] == ' ' || t[at] == '=',
    ensures
        engine_in(s) == engine_in(t),
{
    reveal_strlit("llama-server");
    reveal_strlit("llama.cpp");
    reveal_strlit("ollama");
    reveal_strlit("vllm");
    reveal_strlit("sglang");
    reveal_strlit("exllama");
    lemma_same_parts(s, t, at, "llama-server"@);
    lemma_same_parts(s, t, at, "llama.cpp"@);
    lemma_same_parts(s, t, at, "ollama"@);
    lemma_same_parts(s, t, at, "vllm"@);
    lemma_same_parts(s, t, at, "sglang"@);
    lemma_same_parts(s, t, at, "exllama"@);
}

/// A command line with an option and its value, with `link` between them.
pub open spec fn with_option(
    a: Seq<char>,
    f: Seq<char>,
    link: char,
    v: Seq<char>,
    b: Seq<char>,
) -> Seq<char> {
    a.push(' ') + (f.push(link) + v).push(' ') + b
}

/// An option says the same whether its value follows after a space or after an
/// equals sign. The engine that a text with other than ASCII characters names
/// rests on the lower case of the whole text; there the same engine is all it
/// takes.
pub proof fn both_forms_of_an_option_agree(
    process_name: Seq<char>,
    a: Seq<char>,
    f: Seq<char>,
    v: Seq<char>,
    b: Seq<char>,
)
    requires
        option_named(f) is Some,
        text::is_word(v),
        !waits(text::words(a), 0),
    ensures
        ({
            let spaced = with_option(a, f, ' ', v, b);
            let linked = with_option(a, f, '=', v, b);
            &&& told(text::words(spaced)) == told(text::words(linked))
            &&& text::is_ascii(process_name) && text::is_ascii(spaced) ==> engine(
                process_name,
                spaced,
            ) == engine(process_name, linked)
            &&& engine(process_name, spaced) == engine(process_name, linked) ==> description(
                process_name,
                spaced,
            ) == description(process_name, linked)
        }),
{
    let spaced = with_option(a, f, ' ', v, b);
    let linked = with_option(a, f, '=', v, b);
    let x = text::words(a);
    let y = text::words(b);
    lemma_option_names(f);
    lemma_carried(f, v);
    // The words of both.
    let one = f.push('=') + v;
    let two = f.push(' ') + v;
    assert(one =~= f + "="@ + v) by {
        reveal_strlit("=");
    }
    assert(text::is_word(one));
    assert(spaced =~= a.push(' ') + (two.push(' ') + b));
    assert(linked =~= a.push(' ') + (one.push(' ') + b));
    text::words_of_two_texts(a, ' ', two.push(' ') + b);
    text::words_of_two_texts(a, ' ', one.push(' ') + b);
    text::words_of_two_texts(two, ' ', b);
    text::words_of_two_texts(one, ' ', b);
    text::words_of_two_texts(f, ' ', v);
    text::a_word_is_one_word(f);
    text::a_word_is_one_word(v);
    text::a_word_is_one_word(one);
    let mid2 = seq![f, v];
    let mid1 = seq![one];
    assert(seq![f] + seq![v] =~= mid2);
    let s2 = x + (mid2 + y);
    let s1 = x + (mid1 + y);
    assert(text::words(spaced) == s2);
    assert(text::words(linked) == s1);
    // What they say.
    let n = x.len() as int;
    let d = described_from(x, 0, nothing_described());
    let p = positional_from(x, 0, nothing_placed());
    lemma_read_front(x, mid2 + y, 0, nothing_described(), nothing_placed());
    lemma_read_front(x, mid1 + y, 0, nothing_described(), nothing_placed());
    let option = option_named(f)->0;
    let e = d.with(option, v);
    let q = Positional { pending: false, ..p };
    assert(s2[n] == f);
    assert(s2[n + 1] == v);
    assert(s1[n] == one);
    assert(s2 =~= (x + mid2) + y);
    assert(s1 =~= (x + mid1) + y);
    lemma_read_back(x + mid2, y, 0, e, q);
    lemma_read_back(x + mid1, y, 0, e, q);
    assert(described_from(s2, n, d) == described_from(s2, n + 2, e));
    assert(described_from(s1, n, d) == described_from(s1, n + 1, e));
    assert(positional_from(s2, n, p) == positional_from(s2, n + 2, q));
    assert(positional_from(s1, n, p) == positional_from(s1, n + 1, q));
    // The engine.
    if text::is_ascii(process_name) && text::is_ascii(spaced) {
        reveal_strlit(" ");
        let s = process_name + " "@ + spaced;
        let t = process_name + " "@ + linked;
        let at = process_name.len() + 1 + a.len() + 1 + f.len();
        assert(s[at as int] == ' ' && t[at as int] == '=');
        assert forall|i: int| 0 <= i < s.len() && i != at implies #[trigger] s[i] == t[i] by {}
        assert forall|i: int| 0 <= i < s.len() implies (#[trigger] s[i]) as int <= 127 by {
            if i < process_name.len() {
                assert(s[i] == process_name[i]);
            } else if i > process_name.len() {
                assert(s[i] == spaced[i - process_name.len() - 1]);
            }
        }
        assert forall|i: int| 0 <= i < t.len() implies (#[trigger] t[i]) as int <= 127 by {
            if i != at {
                assert(s[i] == t[i]);
            }
        }
        let ls = text::lower_each(s);
        let lt = text::lower_each(t);
        assert forall|i: int| 0 <= i < ls.len() && i != at implies #[trigger] ls[i] == lt[i] by {
            assert(s[i] == t[i]);
        }
        lemma_same_engine(ls, lt, at as int);
    }
}

/// `serve` or `api-server` stands among the first `n` words.
pub open spec fn has_subcommand(toks: Seq<Seq<char>>, n: int) -> bool {
    exists|k: int|
        0 <= k < n && k < toks.len() && (#[trigger] toks[k] == "serve"@ || toks[k]
            == "api-server"@)
}

/// The path that a word gives by its place is path-shaped and follows the
/// subcommand; so the program itself, which is the first word, never gives it.
pub proof fn the_program_is_never_the_path(toks: Seq<Seq<char>>)
    ensures
        positional_from(toks, 0, nothing_placed()).place matches Some(v) ==> is_path_shaped(v)
            && exists|j: int|
            0 < j < toks.len() && #[trigger] toks[j] == v && has_subcommand(toks, j),
{
    lemma_placed(toks, 0, nothing_placed());
}

proof fn lemma_placed(toks: Seq<Seq<char>>, i: int, p: Positional)
    requires
        0 <= i,
        p.served ==> has_subcommand(toks, i),
        p.place matches Some(v) ==> is_path_shaped(v) && exists|j: int|
            0 < j < toks.len() && #[trigger] toks[j] == v && has_subcommand(toks, j),
    ensures
        positional_from(toks, i, p).place matches Some(v) ==> is_path_shaped(v) && exists|j: int|
            0 < j < toks.len() && #[trigger] toks[j] == v && has_subcommand(toks, j),
    decreases toks.len() - i,
{
    if i < toks.len() {
        let step = if option_named(key_of(toks[i])) is Some && value_of(toks, i) is Some
            && inline_of(toks[i]) is None {
            2int
        } else {
            1
        };
        if p.served {
            let k = choose|k: int|
                0 <= k < i && k < toks.len() && (#[trigger] toks[k] == "serve"@ || toks[k]
                    == "api-server"@);
            assert(toks[k] == "serve"@ || toks[k] == "api-server"@);
            assert(has_subcommand(toks, i + step));
        }
        if option_named(key_of(toks[i])) is Some && value_of(toks, i) is Some {
            lemma_placed(toks, i + step, Positional { pending: false, ..p });
        } else {
            let q = p.after(toks[i]);
            if toks[i] == "serve"@ || toks[i] == "api-server"@ {
                assert(has_subcommand(toks, i + 1));
            }
            if q.place is Some && p.place is None {
                assert(has_subcommand(toks, i));
                assert(toks[i] == q.place->0);
            }
            lemma_placed(toks, i + 1, q);
        }
    }
}

/// This dashboard is itself a process with `--model` on its command line;
/// without this it would list itself as a running LLM.
pub fn is_self(pid: u32, own_pid: u32, cmdline: &str) -> (r: bool)
    ensures
        r == (pid == own_pid || text::has_part(cmdline@, "llm-visuals"@)),
{
    pid == own_pid || text::contains(&text::chars_of(cmdline), "llm-visuals")
}

/// The runs of `b` between the bytes `sep`.
pub open spec fn byte_runs(b: Seq<u8>, sep: u8) -> Seq<Seq<u8>>
    decreases b.len(),
{
    if b.len() == 0 {
        seq![Seq::<u8>::empty()]
    } else {
        let runs = byte_runs(b.drop_last(), sep);
        if b.last() == sep {
            runs.push(Seq::<u8>::empty())
        } else {
            runs.update(runs.len() - 1, runs.last().push(b.last()))
        }
    }
}

/// The arguments in a list of runs: the non-empty ones, as text.
pub open spec fn arguments(runs: Seq<Seq<u8>>) -> Seq<Seq<char>>
    decreases runs.len(),
{
    if runs.len() == 0 {
        Seq::empty()
    } else {
        let before = arguments(runs.drop_last());
        if runs.last().len() == 0 {
            before
        } else {
            before.push(text::utf8_lossy(runs.last()))
        }
    }
}

/// Adds a run of bytes to a list of arguments unless it is empty.
fn add_argument(list: &mut Vec<Vec<char>>, run: &Vec<u8>)
    ensures
        text::texts(final(list)@) == if run@.len() == 0 {
            text::texts(old(list)@)
        } else {
            text::texts(old(list)@).push(text::utf8_lossy(run@))
        },
{
    if run.len() > 0 {
        let ghost before = text::texts(list@);
        let s = text::from_utf8_lossy(run.as_slice());
        list.push(text::chars_of(s.as_str()));
        assert(text::texts(list@) =~= before.push(text::utf8_lossy(run@)));
    }
}

/// The command line that a process's raw arguments write: the arguments are
/// separated by NUL bytes in `raw` and by spaces in the result.
pub fn join_cmdline(raw: &[u8]) -> (r: Option<String>)
    ensures
        r is Some <==> raw@.len() > 0,
        r matches Some(s) ==> s@ == text::joined(arguments(byte_runs(raw@, 0)), " "@),
{
    if raw.len() == 0 {
        return None;
    }
    let mut args: Vec<Vec<char>> = Vec::new();
    let mut run: Vec<u8> = Vec::new();
    let mut i: usize = 0;
    proof {
        assert(raw@.take(0) =~= Seq::<u8>::empty());
        let runs = byte_runs(raw@.take(0), 0);
        assert(runs =~= seq![Seq::<u8>::empty()]);
        assert(runs.drop_last() =~= Seq::<Seq<u8>>::empty());
        assert(text::texts(args@) =~= Seq::<Seq<char>>::empty());
    }
    while i < raw.len()
        invariant
            i <= raw.len(),
            byte_runs(raw@.take(i as int), 0).len() > 0,
            run@ == byte_runs(raw@.take(i as int), 0).last(),
            text::texts(args@) == arguments(byte_runs(raw@.take(i as int), 0).drop_last()),
        decreases raw.len() - i,
    {
        let ghost runs = byte_runs(raw@.take(i as int), 0);
        let ghost next = byte_runs(raw@.take(i + 1), 0);
        proof {
            assert(raw@.take(i + 1).drop_last() =~= raw@.take(i as int));
            assert(raw@.take(i + 1).last() == raw@[i as int]);
        }
        if raw[i] == 0 {
            add_argument(&mut args, &run);
            run = Vec::new();
            proof {
                assert(next.drop_last() =~= runs);
                assert(run@ =~= next.last());
            }
        } else {
            run.push(raw[i]);
            assert(next.drop_last() =~= runs.drop_last());
        }
        i += 1;
    }
    proof {
        assert(raw@.take(raw@.len() as int) =~= raw@);
    }
    add_argument(&mut args, &run);
    Some(text::string_of(&text::join(&args, " ")))
}

/// The row of a GPU in `nvidia-smi`'s index table: its UUID and its index.
pub open spec fn uuid_row(line: Seq<char>) -> Option<(Seq<char>, u32)> {
    let parts = text::split_on(line, ',');
    if parts.len() < 2 {
        None
    } else {
        match text::unsigned(text::trimmed(parts[0]), u32::MAX as nat) {
            Some(n) => Some((text::trimmed(parts[1]), n as u32)),
            None => None,
        }
    }
}

/// The GPUs in the first `n` lines of the index table.
pub open spec fn uuid_rows(lines: Seq<Seq<char>>, n: int) -> Seq<(Seq<char>, u32)>
    decreases n,
{
    if n <= 0 {
        Seq::empty()
    } else {
        match uuid_row(lines[n - 1]) {
            Some(row) => uuid_rows(lines, n - 1).push(row),
            None => uuid_rows(lines, n - 1),
        }
    }
}

/// The index of a GPU: that of its last row, or 0 where it has none.
pub open spec fn gpu_index_of(rows: Seq<(Seq<char>, u32)>, uuid: Seq<char>) -> u32
    decreases rows.len(),
{
    if rows.len() == 0 {
        0
    } else if rows.last().0 == uuid {
        rows.last().1
    } else {
        gpu_index_of(rows.drop_last(), uuid)
    }
}

pub open spec fn rows_view(rows: Seq<(String, u32)>) -> Seq<(Seq<char>, u32)> {
    Seq::new(rows.len(), |i: int| (rows[i].0@, rows[i].1))
}

/// Reads `nvidia-smi`'s index table from its text.
pub fn parse_gpu_uuids(table: &str) -> (r: Vec<(String, u32)>)
    ensures
        rows_view(r@) == uuid_rows(text::lines(table@), text::lines(table@).len() as int),
{
    let lines = text::lines_of(&text::chars_of(table));
    let ghost all = text::texts(lines@);
    let mut out: Vec<(String, u32)> = Vec::new();
    let mut i: usize = 0;
    assert(rows_view(out@) =~= Seq::<(Seq<char>, u32)>::empty());
    while i < lines.len()
        invariant
            i <= lines.len(),
            all == text::texts(lines@),
            rows_view(out@) == uuid_rows(all, i as int),
        decreases lines.len() - i,
    {
        let parts = text::split(&lines[i], ',');
        let ghost p = text::texts(parts@);
        assert(all[i as int] == lines@[i as int]@);
        if parts.len() >= 2 {
            assert(p[0] == parts@[0]@ && p[1] == parts@[1]@);
            if let Some(n) = text::parse_unsigned(&text::trim(&parts[0]), u32::MAX as u64) {
                let ghost before = rows_view(out@);
                let uuid = text::string_of(&text::trim(&parts[1]));
                let ghost row = (uuid@, n as u32);
                out.push((uuid, n as u32));
                assert(rows_view(out@) =~= before.push(row));
            }
        }
        i += 1;
    }
    out
}

/// Reads `nvidia-smi`'s index table from what it printed.
pub fn gpu_uuid_index_map(stdout: &[u8]) -> (r: Vec<(String, u32)>)
    ensures
        ({
            let lines = text::lines(text::utf8_lossy(stdout@));
            rows_view(r@) == uuid_rows(lines, lines.len() as int)
        }),
{
    let table = text::from_utf8_lossy(stdout);
    parse_gpu_uuids(table.as_str())
}

fn gpu_index(rows: &Vec<(String, u32)>, uuid: &[char]) -> (r: u32)
    ensures
        r == gpu_index_of(rows_view(rows@), uuid@),
{
    let ghost all = rows_view(rows@);
    let mut n: usize = rows.len();
    assert(all.take(n as int) =~= all);
    while n > 0
        invariant
            n <= rows.len(),
            all == rows_view(rows@),
            gpu_index_of(all.take(n as int), uuid@) == gpu_index_of(all, uuid@),
        decreases n,
    {
        assert(all.take(n as int).last() == (rows@[n - 1].0@, rows@[n - 1].1));
        if text::is_text(uuid, rows[n - 1].0.as_str()) {
            return rows[n - 1].1;
        }
        assert(all.take(n as int).drop_last() =~= all.take(n - 1));
        n -= 1;
    }
    0
}

/// A process that computes on a GPU.
#[derive(Clone, Debug)]
pub struct ComputeApp {
    pub pid: u32,
    pub process_name: String,
    pub gpu_index: u32,
    pub mem_used_mb: u64,
}

/// A process that computes on a GPU, as mathematical values.
pub struct App {
    pub pid: u32,
    pub process_name: Seq<char>,
    pub gpu_index: u32,
    pub mem_used_mb: u64,
}

impl View for ComputeApp {
    type V = App;

    open spec fn view(&self) -> App {
        App {
            pid: self.pid,
            process_name: self.process_name@,
            gpu_index: self.gpu_index,
            mem_used_mb: self.mem_used_mb,
        }
    }
}

/// The process in a row of `nvidia-smi`'s table of compute processes. Memory that
/// is not a number ("[N/A]") is unknown, and counts as none.
pub open spec fn app_row(line: Seq<char>, gpus: Seq<(Seq<char>, u32)>) -> Option<App> {
    let parts = text::split_on(text::trimmed(line), ',');
    if parts.len() < 4 {
        None
    } else {
        match text::unsigned(text::trimmed(parts[1]), u32::MAX as nat) {
            None => None,
            Some(pid) => Some(
                App {
                    pid: pid as u32,
                    process_name: text::trimmed(parts[2]),
                    gpu_index: gpu_index_of(gpus, text::trimmed(parts[0])),
                    mem_used_mb: match text::unsigned(text::trimmed(parts[3]), u64::MAX as nat) {
                        Some(n) => n as u64,
                        None => 0,
                    },
                },
            ),
        }
    }
}

/// The processes in the first `n` lines.
pub open spec fn app_rows(lines: Seq<Seq<char>>, gpus: Seq<(Seq<char>, u32)>, n: int) -> Seq<App>
    decreases n,
{
    if n <= 0 {
        Seq::empty()
    } else {
        match app_row(lines[n - 1], gpus) {
            Some(app) => app_rows(lines, gpus, n - 1).push(app),
            None => app_rows(lines, gpus, n - 1),
        }
    }
}

pub open spec fn apps_view(apps: Seq<ComputeApp>) -> Seq<App> {
    Seq::new(apps.len(), |i: int| apps[i]@)
}

fn compute_app(line: &[char], gpus: &Vec<(String, u32)>) -> (r: Option<ComputeApp>)
    ensures
        r is Some <==> app_row(line@, rows_view(gpus@)) is Some,
        r matches Some(a) ==> app_row(line@, rows_view(gpus@)) == Some(a@),
{
    let parts = text::split(&text::trim(line), ',');
    let ghost p = text::texts(parts@);
    if parts.len() < 4 {
        return None;
    }
    assert(p[0] == parts@[0]@ && p[1] == parts@[1]@ && p[2] == parts@[2]@ && p[3] == parts@[3]@);
    let pid: u32 = match text::parse_unsigned(&text::trim(&parts[1]), u32::MAX as u64) {
        Some(n) => n as u32,
        None => return None,
    };
    let process_name = text::string_of(&text::trim(&parts[2]));
    // Windows (WDDM) reports "[N/A]": keep the process, memory unknown.
    let mem_used_mb: u64 = match text::parse_unsigned(&text::trim(&parts[3]), u64::MAX) {
        Some(n) => n,
        None => 0,
    };
    let gpu_index: u32 = gpu_index(gpus, &text::trim(&parts[0]));
    Some(ComputeApp { pid, process_name, gpu_index, mem_used_mb })
}

/// Reads `nvidia-smi`'s table of compute processes from its text.
pub fn parse_compute_apps(table: &str, gpus: &Vec<(String, u32)>) -> (r: Vec<ComputeApp>)
    ensures
        apps_view(r@) == app_rows(
            text::lines(table@),
            rows_view(gpus@),
            text::lines(table@).len() as int,
        ),
{
    let lines = text::lines_of(&text::chars_of(table));
    let ghost all = text::texts(lines@);
    let mut out: Vec<ComputeApp> = Vec::new();
    let mut i: usize = 0;
    assert(apps_view(out@) =~= Seq::<App>::empty());
    while i < lines.len()
        invariant
            i <= lines.len(),
            all == text::texts(lines@),
            apps_view(out@) == app_rows(all, rows_view(gpus@), i as int),
        decreases lines.len() - i,
    {
        assert(all[i as int] == lines@[i as int]@);
        if let Some(a) = compute_app(&lines[i], gpus) {
            let ghost before = apps_view(out@);
            let ghost row = a@;
            out.push(a);
            assert(apps_view(out@) =~= before.push(row));
        }
        i += 1;
    }
    out
}

/// Reads `nvidia-smi`'s table of compute processes from what it printed.
pub fn nvidia_compute_apps(stdout: &[u8], gpus: &Vec<(String, u32)>) -> (r: Vec<ComputeApp>)
    ensures
        ({
            let lines = text::lines(text::utf8_lossy(stdout@));
            apps_view(r@) == app_rows(lines, rows_view(gpus@), lines.len() as int)
        }),
{
    let table = text::from_utf8_lossy(stdout);
    parse_compute_apps(table.as_str(), gpus)
}

/// Information about a detected running LLM process
#[derive(Clone, Debug)]
pub struct DetectedModel {
    pub name: String,
    pub path: Option<String>,
    pub pid: u32,
    pub process_name: String,
    pub engine: String,
    pub gpu_indices: Vec<u32>,
    pub mem_used_mb: u64,
    pub port: Option<u16>,
    pub ctx_max: Option<usize>,
    pub spec_type: Option<String>,
    pub n_gpu_layers: Option<u32>,
    /// The proportions of `--tensor-split`.
    pub tensor_split: Vec<Single>,
    pub cmdline: String,
    pub gguf: Option<GgufInfo>,
    /// Topology from the `config.json` of a served directory.
    pub hf: Option<GgufInfo>,
    /// Weight byte layout from the tensor table (for bandwidth estimates).
    pub tensors: Option<TensorSummary>,
}

/// A detected process, as mathematical values.
pub struct Model {
    pub pid: u32,
    pub process_name: Seq<char>,
    pub cmdline: Seq<char>,
    pub engine: Seq<char>,
    pub described: Described,
    pub gpu_indices: Seq<u32>,
    pub mem_used_mb: u64,
}

impl View for DetectedModel {
    type V = Model;

    open spec fn view(&self) -> Model {
        Model {
            pid: self.pid,
            process_name: self.process_name@,
            cmdline: self.cmdline@,
            engine: self.engine@,
            described: Described {
                name: self.name@,
                path: text_in(self.path),
                port: self.port,
                ctx_max: self.ctx_max,
                spec_type: text_in(self.spec_type),
                n_gpu_layers: self.n_gpu_layers,
                tensor_split: self.tensor_split@,
            },
            gpu_indices: self.gpu_indices@,
            mem_used_mb: self.mem_used_mb,
        }
    }
}

pub open spec fn models_view(models: Seq<DetectedModel>) -> Seq<Model> {
    Seq::new(models.len(), |i: int| models[i]@)
}

/// A process of which nothing but its command line is known.
pub open spec fn fresh_model(pid: u32, process_name: Seq<char>, cmdline: Seq<char>) -> Model {
    Model {
        pid,
        process_name,
        cmdline,
        engine: engine(process_name, cmdline),
        described: description(process_name, cmdline),
        gpu_indices: Seq::empty(),
        mem_used_mb: 0,
    }
}

/// `a + b`, or the largest `u64` where that is more.
pub open spec fn capped_sum(a: u64, b: u64) -> u64 {
    if a + b > u64::MAX {
        u64::MAX
    } else {
        (a + b) as u64
    }
}

impl Model {
    /// The process once it is seen to use so much memory of a GPU.
    pub open spec fn on_gpu(self, gpu_index: u32, mem_used_mb: u64) -> Model {
        Model {
            gpu_indices: if self.gpu_indices.contains(gpu_index) {
                self.gpu_indices
            } else {
                self.gpu_indices.push(gpu_index)
            },
            mem_used_mb: capped_sum(self.mem_used_mb, mem_used_mb),
            ..self
        }
    }
}

/// The position of a process in a list; the length of the list where it is not
/// there.
pub open spec fn position(models: Seq<Model>, pid: u32) -> int
    decreases models.len(),
{
    if models.len() == 0 {
        0
    } else if position(models.drop_last(), pid) < models.len() - 1 {
        position(models.drop_last(), pid)
    } else if models.last().pid == pid {
        models.len() - 1
    } else {
        models.len() as int
    }
}

/// A process is to be listed: it is an inference server, and not this dashboard.
pub open spec fn is_listed(
    pid: u32,
    process_name: Seq<char>,
    cmdline: Seq<char>,
    own_pid: u32,
    dirs: Seq<Seq<char>>,
) -> bool {
    is_llm(process_name, cmdline, dirs) && !(pid == own_pid || text::has_part(
        cmdline,
        "llm-visuals"@,
    ))
}

/// The list once a compute process has been looked at. Its command line is that
/// which could be read, else its name.
pub open spec fn with_app(
    models: Seq<Model>,
    app: App,
    read: Option<Seq<char>>,
    own_pid: u32,
    dirs: Seq<Seq<char>>,
) -> Seq<Model> {
    let cmdline = match read {
        Some(c) => c,
        None => app.process_name,
    };
    if !is_listed(app.pid, app.process_name, cmdline, own_pid, dirs) {
        models
    } else {
        let i = position(models, app.pid);
        if i < models.len() {
            models.update(i, models[i].on_gpu(app.gpu_index, app.mem_used_mb))
        } else {
            models.push(
                fresh_model(app.pid, app.process_name, cmdline).on_gpu(
                    app.gpu_index,
                    app.mem_used_mb,
                ),
            )
        }
    }
}

/// The list once the first `n` compute processes have been looked at.
pub open spec fn with_apps(
    apps: Seq<(App, Option<Seq<char>>)>,
    n: int,
    own_pid: u32,
    dirs: Seq<Seq<char>>,
) -> Seq<Model>
    decreases n,
{
    if n <= 0 {
        Seq::empty()
    } else {
        with_app(
            with_apps(apps, n - 1, own_pid, dirs),
            apps[n - 1].0,
            apps[n - 1].1,
            own_pid,
            dirs,
        )
    }
}

/// The list once a process of the process table has been looked at.
pub open spec fn with_process(
    models: Seq<Model>,
    process: (u32, Seq<char>, Seq<char>),
    own_pid: u32,
    dirs: Seq<Seq<char>>,
) -> Seq<Model> {
    let (pid, name, cmdline) = process;
    if position(models, pid) < models.len() || !is_listed(pid, name, cmdline, own_pid, dirs) {
        models
    } else {
        models.push(fresh_model(pid, name, cmdline))
    }
}

/// The list once the first `n` processes of the process table have been looked
/// at.
pub open spec fn with_processes(
    models: Seq<Model>,
    table: Seq<(u32, Seq<char>, Seq<char>)>,
    n: int,
    own_pid: u32,
    dirs: Seq<Seq<char>>,
) -> Seq<Model>
    decreases n,
{
    if n <= 0 {
        models
    } else {
        with_process(
            with_processes(models, table, n - 1, own_pid, dirs),
            table[n - 1],
            own_pid,
            dirs,
        )
    }
}

pub open spec fn seen_view(apps: Seq<(ComputeApp, Option<String>)>) -> Seq<
    (App, Option<Seq<char>>),
> {
    Seq::new(apps.len(), |i: int| (apps[i].0@, text_in(apps[i].1)))
}

pub open spec fn table_view(table: Seq<(u32, String, String)>) -> Seq<
    (u32, Seq<char>, Seq<char>),
> {
    Seq::new(table.len(), |i: int| (table[i].0, table[i].1@, table[i].2@))
}

/// No model file of the process has been looked into.
pub open spec fn unread(m: DetectedModel) -> bool {
    m.gguf is None && m.hf is None && m.tensors is None
}

/// The position of a process in a list.
fn find_pid(models: &Vec<DetectedModel>, pid: u32) -> (r: usize)
    ensures
        r == position(models_view(models@), pid),
        r <= models.len(),
{
    let ghost all = models_view(models@);
    let mut i: usize = 0;
    assert(all.take(0) =~= Seq::<Model>::empty());
    while i < models.len()
        invariant
            i <= models.len(),
            all == models_view(models@),
            position(all.take(i as int), pid) == i,
        decreases models.len() - i,
    {
        assert(all.take(i + 1).drop_last() =~= all.take(i as int));
        assert(all.take(i + 1).last() == models@[i as int]@);
        if models[i].pid == pid {
            proof {
                lemma_position_stays(all, pid, i + 1, all.len() as int);
                assert(all.take(all.len() as int) =~= all);
            }
            return i;
        }
        i += 1;
    }
    assert(all.take(all.len() as int) =~= all);
    i
}

/// A process found in a part of the list is found there in all of it.
proof fn lemma_position_stays(all: Seq<Model>, pid: u32, k: int, n: int)
    requires
        0 <= k <= n <= all.len(),
        position(all.take(k), pid) < k,
    ensures
        position(all.take(n), pid) == position(all.take(k), pid),
    decreases n,
{
    if k < n {
        lemma_position_stays(all, pid, k, n - 1);
        assert(all.take(n).drop_last() =~= all.take(n - 1));
    }
}

/// A process of which nothing but its command line is known.
fn fresh(pid: u32, process_name: &String, cmdline: &String) -> (r: DetectedModel)
    ensures
        r@ == fresh_model(pid, process_name@, cmdline@),
        unread(r),
{
    let parsed = parse_cmdline(process_name.as_str(), cmdline.as_str());
    let ghost d = parsed.described();
    let m = DetectedModel {
        name: parsed.name,
        path: parsed.path,
        pid,
        process_name: process_name.clone(),
        engine: parsed.engine,
        gpu_indices: Vec::new(),
        mem_used_mb: 0,
        port: parsed.port,
        ctx_max: parsed.ctx_max,
        spec_type: parsed.spec_type,
        n_gpu_layers: parsed.n_gpu_layers,
        tensor_split: parsed.tensor_split,
        cmdline: cmdline.clone(),
        gguf: None,
        hf: None,
        tensors: None,
    };
    proof {
        assert(m@.described == d);
        assert(m@.gpu_indices =~= Seq::<u32>::empty());
    }
    m
}

/// Whether a process is to be listed.
fn listed(pid: u32, process_name: &String, cmdline: &String, own_pid: u32, dirs: &[String]) -> (r:
    bool)
    ensures
        r == is_listed(pid, process_name@, cmdline@, own_pid, text::strings(dirs@)),
{
    looks_like_llm(process_name.as_str(), cmdline.as_str(), dirs) && !is_self(
        pid,
        own_pid,
        cmdline.as_str(),
    )
}

fn holds_id(ids: &Vec<u32>, id: u32) -> (r: bool)
    ensures
        r == ids@.contains(id),
{
    let mut i: usize = 0;
    while i < ids.len()
        invariant
            i <= ids.len(),
            forall|j: int| 0 <= j < i ==> ids@[j] != id,
        decreases ids.len() - i,
    {
        if ids[i] == id {
            assert(ids@[i as int] == id);
            return true;
        }
        i += 1;
    }
    false
}

impl DetectedModel {
    /// Notes that the process uses so much memory of a GPU.
    fn use_gpu(&mut self, gpu_index: u32, mem_used_mb: u64)
        ensures
            final(self)@ == old(self)@.on_gpu(gpu_index, mem_used_mb),
            unread(*old(self)) ==> unread(*final(self)),
    {
        if !holds_id(&self.gpu_indices, gpu_index) {
            self.gpu_indices.push(gpu_index);
        }
        self.mem_used_mb = self.mem_used_mb.saturating_add(mem_used_mb);
    }
}

/// Lists the inference servers among the compute processes and the processes of
/// the process table: each compute process with the command line that could be
/// read of it, each other process with its name and command line.
pub fn collect_models(
    apps: &Vec<(ComputeApp, Option<String>)>,
    table: &Vec<(u32, String, String)>,
    own_pid: u32,
    dirs: &[String],
) -> (r: Vec<DetectedModel>)
    ensures
        models_view(r@) == with_processes(
            with_apps(seen_view(apps@), apps@.len() as int, own_pid, text::strings(dirs@)),
            table_view(table@),
            table@.len() as int,
            own_pid,
            text::strings(dirs@),
        ),
        forall|i: int| 0 <= i < r@.len() ==> unread(#[trigger] r@[i]),
{
    let ghost seen = seen_view(apps@);
    let ghost rest = table_view(table@);
    let ghost places = text::strings(dirs@);
    let mut models: Vec<DetectedModel> = Vec::new();
    let mut i: usize = 0;
    assert(models_view(models@) =~= Seq::<Model>::empty());
    while i < apps.len()
        invariant
            i <= apps.len(),
            seen == seen_view(apps@),
            places == text::strings(dirs@),
            models_view(models@) == with_apps(seen, i as int, own_pid, places),
            forall|j: int| 0 <= j < models@.len() ==> unread(#[trigger] models@[j]),
        decreases apps.len() - i,
    {
        let app = &apps[i].0;
        let cmdline = match &apps[i].1 {
            Some(c) => c.clone(),
            None => app.process_name.clone(),
        };
        let ghost before = models_view(models@);
        assert(seen[i as int] == (app@, text_in(apps@[i as int].1)));
        if listed(app.pid, &app.process_name, &cmdline, own_pid, dirs) {
            let at = find_pid(&models, app.pid);
            if at < models.len() {
                let ghost was = models@;
                models[at].use_gpu(app.gpu_index, app.mem_used_mb);
                assert(models_view(models@) =~= before.update(
                    at as int,
                    before[at as int].on_gpu(app.gpu_index, app.mem_used_mb),
                ));
            } else {
                let mut m = fresh(app.pid, &app.process_name, &cmdline);
                m.use_gpu(app.gpu_index, app.mem_used_mb);
                let ghost v = m@;
                models.push(m);
                assert(models_view(models@) =~= before.push(v));
            }
        }
        i += 1;
    }
    let ghost found = models_view(models@);
    let mut k: usize = 0;
    while k < table.len()
        invariant
            k <= table.len(),
            rest == table_view(table@),
            places == text::strings(dirs@),
            models_view(models@) == with_processes(found, rest, k as int, own_pid, places),
            forall|j: int| 0 <= j < models@.len() ==> unread(#[trigger] models@[j]),
        decreases table.len() - k,
    {
        let row = &table[k];
        let ghost before = models_view(models@);
        assert(rest[k as int] == (row.0, row.1@, row.2@));
        if find_pid(&models, row.0) == models.len() && listed(row.0, &row.1, &row.2, own_pid, dirs) {
            let m = fresh(row.0, &row.1, &row.2);
            let ghost v = m@;
            models.push(m);
            assert(models_view(models@) =~= before.push(v));
        }
        k += 1;
    }
    models
}

/// Every process is in the list once.
pub open spec fn listed_once(models: Seq<Model>) -> bool {
    forall|i: int, j: int| 0 <= i < j < models.len() ==> models[i].pid != models[j].pid
}

proof fn lemma_position(models: Seq<Model>, pid: u32)
    ensures
        0 <= position(models, pid) <= models.len(),
        position(models, pid) < models.len() ==> models[position(models, pid)].pid == pid,
        forall|i: int| 0 <= i < position(models, pid) ==> models[i].pid != pid,
    decreases models.len(),
{
    if models.len() > 0 {
        let head = models.drop_last();
        lemma_position(head, pid);
        assert forall|i: int| 0 <= i < position(models, pid) implies models[i].pid != pid by {
            if i < head.len() {
                assert(head[i] == models[i]);
            }
        }
    }
}

proof fn lemma_apps_listed_once(
    apps: Seq<(App, Option<Seq<char>>)>,
    n: int,
    own_pid: u32,
    dirs: Seq<Seq<char>>,
)
    ensures
        listed_once(with_apps(apps, n, own_pid, dirs)),
        forall|i: int|
            0 <= i < with_apps(apps, n, own_pid, dirs).len() ==> #[trigger] with_apps(
                apps,
                n,
                own_pid,
                dirs,
            )[i].pid != own_pid,
    decreases n,
{
    if n > 0 {
        lemma_apps_listed_once(apps, n - 1, own_pid, dirs);
        lemma_position(with_apps(apps, n - 1, own_pid, dirs), apps[n - 1].0.pid);
    }
}

proof fn lemma_no_card_twice(
    apps: Seq<(App, Option<Seq<char>>)>,
    n: int,
    own_pid: u32,
    dirs: Seq<Seq<char>>,
)
    ensures
        forall|i: int|
            0 <= i < with_apps(apps, n, own_pid, dirs).len() ==> (#[trigger] with_apps(
                apps,
                n,
                own_pid,
                dirs,
            )[i]).gpu_indices.no_duplicates(),
    decreases n,
{
    if n > 0 {
        lemma_no_card_twice(apps, n - 1, own_pid, dirs);
        lemma_position(with_apps(apps, n - 1, own_pid, dirs), apps[n - 1].0.pid);
    }
}

/// Detection lists every process once, with each of its cards once, and never this
/// dashboard.
pub proof fn processes_are_listed_once(
    apps: Seq<(App, Option<Seq<char>>)>,
    table: Seq<(u32, Seq<char>, Seq<char>)>,
    n: int,
    own_pid: u32,
    dirs: Seq<Seq<char>>,
)
    ensures
        ({
            let found = with_apps(apps, apps.len() as int, own_pid, dirs);
            let models = with_processes(found, table, n, own_pid, dirs);
            listed_once(models) && forall|i: int|
                0 <= i < models.len() ==> (#[trigger] models[i]).pid != own_pid
                    && models[i].gpu_indices.no_duplicates()
        }),
    decreases n,
{
    let found = with_apps(apps, apps.len() as int, own_pid, dirs);
    if n > 0 {
        processes_are_listed_once(apps, table, n - 1, own_pid, dirs);
        lemma_position(with_processes(found, table, n - 1, own_pid, dirs), table[n - 1].0);
    } else {
        lemma_apps_listed_once(apps, apps.len() as int, own_pid, dirs);
        lemma_no_card_twice(apps, apps.len() as int, own_pid, dirs);
    }
}

/// A piece of a model name that tells its quantisation or size class, in upper
/// case.
pub open spec fn is_noise(piece: Seq<char>) -> bool {
    ||| (piece.len() > 0 && piece[0] == 'Q' && exists|i: int|
        0 <= i < piece.len() && text::is_digit(#[trigger] piece[i]))
    ||| piece == "UD"@
    ||| piece == "GGUF"@
    ||| piece == "K"@
    ||| piece == "XL"@
    ||| piece == "M"@
    ||| piece == "S"@
    ||| piece == "L"@
    ||| piece == "0"@
    ||| piece == "1"@
}

/// The pieces without the noise at their end; one piece always stays.
pub open spec fn without_noise(parts: Seq<Seq<char>>) -> Seq<Seq<char>>
    decreases parts.len(),
{
    if parts.len() > 1 && is_noise(parts.last().map_values(|c: char| text::upper(c))) {
        without_noise(parts.drop_last())
    } else {
        parts
    }
}

/// What follows the last slash.
pub open spec fn after_slash(s: Seq<char>) -> Seq<char> {
    text::split_on(s, '/').last()
}

/// The short form of a model's name: without `models--`, its directory, and the
/// quantisation tags at its end.
pub open spec fn shortened(name: Seq<char>) -> Seq<char> {
    let n = text::trimmed(name);
    let n = if text::has_prefix(n, "models--"@) {
        n.skip("models--"@.len() as int)
    } else {
        n
    };
    text::joined(without_noise(text::split_on(after_slash(n), '-')), "-"@)
}

fn noise(piece: &[char]) -> (r: bool)
    ensures
        r == is_noise(piece@),
{
    if piece.len() > 0 && piece[0] == 'Q' {
        let mut i: usize = 0;
        while i < piece.len()
            invariant
                i <= piece.len(),
                piece.len() > 0,
                piece@[0] == 'Q',
                forall|j: int| 0 <= j < i ==> !text::is_digit(#[trigger] piece@[j]),
            decreases piece.len() - i,
        {
            if text::is_digit_char(piece[i]) {
                assert(text::is_digit(piece@[i as int]));
                return true;
            }
            i += 1;
        }
    }
    text::is_text(piece, "UD") || text::is_text(piece, "GGUF") || text::is_text(piece, "K")
        || text::is_text(piece, "XL") || text::is_text(piece, "M") || text::is_text(piece, "S")
        || text::is_text(piece, "L") || text::is_text(piece, "0") || text::is_text(piece, "1")
}

/// The parts of the line that shows a detected process.
pub open spec fn shown(m: Model) -> Seq<char> {
    let gpus = if m.gpu_indices.len() == 0 {
        "?"@
    } else {
        text::joined(m.gpu_indices.map_values(|g: u32| text::decimal(g as nat)), ","@)
    };
    m.described.name + " (PID "@ + text::decimal(m.pid as nat) + " · "@ + m.engine + " · GPU "@
        + gpus + " · "@ + text::decimal(m.mem_used_mb as nat) + " MB)"@
}

/// The ids in ascending order.
pub open spec fn ids_ascend(ids: Seq<u32>) -> bool {
    forall|i: int, j: int| 0 <= i <= j < ids.len() ==> ids[i] <= ids[j]
}

/// The fields of a served model's `config.json` that tell its topology.
#[derive(Clone, Copy, Debug, PartialEq, Eq, Structural)]
pub struct HfConfig {
    pub num_hidden_layers: Option<usize>,
    pub num_attention_heads: Option<usize>,
    pub num_key_value_heads: Option<usize>,
    pub num_experts: Option<usize>,
    pub num_experts_per_tok: Option<usize>,
    pub max_position_embeddings: Option<usize>,
}

pub open spec fn count_or(n: Option<usize>, default: usize) -> usize {
    match n {
        Some(n) => n,
        None => default,
    }
}

pub open spec fn first_of(a: Option<usize>, b: Option<usize>) -> Option<usize> {
    match a {
        Some(n) => Some(n),
        None => b,
    }
}

impl HfConfig {
    /// The fields, each taken from `other` where it is missing.
    pub open spec fn or_those_of(self, other: HfConfig) -> HfConfig {
        HfConfig {
            num_hidden_layers: first_of(self.num_hidden_layers, other.num_hidden_layers),
            num_attention_heads: first_of(self.num_attention_heads, other.num_attention_heads),
            num_key_value_heads: first_of(self.num_key_value_heads, other.num_key_value_heads),
            num_experts: first_of(self.num_experts, other.num_experts),
            num_experts_per_tok: first_of(self.num_experts_per_tok, other.num_experts_per_tok),
            max_position_embeddings: first_of(
                self.max_position_embeddings,
                other.max_position_embeddings,
            ),
        }
    }

    fn or(self, other: HfConfig) -> (r: HfConfig)
        ensures
            r == self.or_those_of(other),
    {
        HfConfig {
            num_hidden_layers: either(self.num_hidden_layers, other.num_hidden_layers),
            num_attention_heads: either(self.num_attention_heads, other.num_attention_heads),
            num_key_value_heads: either(self.num_key_value_heads, other.num_key_value_heads),
            num_experts: either(self.num_experts, other.num_experts),
            num_experts_per_tok: either(self.num_experts_per_tok, other.num_experts_per_tok),
            max_position_embeddings: either(
                self.max_position_embeddings,
                other.max_position_embeddings,
            ),
        }
    }
}

fn either(a: Option<usize>, b: Option<usize>) -> (r: Option<usize>)
    ensures
        r == first_of(a, b),
{
    match a {
        Some(n) => Some(n),
        None => b,
    }
}

/// A topology is what a `config.json` tells, with or without an inner config.
pub open spec fn config_tells(
    config: HfConfig,
    text_config: Option<HfConfig>,
    r: Option<GgufInfo>,
) -> bool {
    let c = match text_config {
        Some(t) => t.or_those_of(config),
        None => config,
    };
    &&& r is Some <==> c.num_hidden_layers is Some
    &&& r matches Some(info) ==> {
        &&& Some(info.n_layers) == c.num_hidden_layers
        &&& info.n_heads == count_or(c.num_attention_heads, 0)
        &&& info.n_kv_heads == count_or(c.num_key_value_heads, info.n_heads)
        &&& info.n_experts == count_or(c.num_experts, 0)
        &&& info.n_experts_used == count_or(c.num_experts_per_tok, 0)
        &&& info.ctx_train == count_or(c.max_position_embeddings, 0)
    }
}

/// The topology that a `config.json` tells. Each field of a multimodal wrapper's
/// `text_config` comes before that of the wrapper. A config without a layer count
/// tells nothing.
pub fn hf_config_topology(config: HfConfig, text_config: Option<HfConfig>) -> (r: Option<GgufInfo>)
    ensures
        config_tells(config, text_config, r),
        ({
            let c = match text_config {
                Some(t) => t.or_those_of(config),
                None => config,
            };
            &&& r is Some <==> c.num_hidden_layers is Some
            &&& r matches Some(info) ==> {
                &&& Some(info.n_layers) == c.num_hidden_layers
                &&& info.n_heads == count_or(c.num_attention_heads, 0)
                &&& info.n_kv_heads == count_or(c.num_key_value_heads, info.n_heads)
                &&& info.n_experts == count_or(c.num_experts, 0)
                &&& info.n_experts_used == count_or(c.num_experts_per_tok, 0)
                &&& info.ctx_train == count_or(c.max_position_embeddings, 0)
                &&& info.name@ == Seq::<char>::empty()
                &&& info.architecture@ == Seq::<char>::empty()
                &&& info.n_embd == 0
                &&& info.n_mtp == 0
            }
        }),
{
    let c = match text_config {
        Some(t) => t.or(config),
        None => config,
    };
    let n_layers = match c.num_hidden_layers {
        Some(n) => n,
        None => return None,
    };
    let mut info = GgufInfo::default();
    info.n_layers = n_layers;
    info.n_heads = c.num_attention_heads.unwrap_or(0);
    info.n_kv_heads = c.num_key_value_heads.unwrap_or(info.n_heads);
    info.n_experts = c.num_experts.unwrap_or(0);
    info.n_experts_used = c.num_experts_per_tok.unwrap_or(0);
    info.ctx_train = c.max_position_embeddings.unwrap_or(0);
    Some(info)
}

impl DetectedModel {
    /// Stable identity for routing poller samples back to a slot.
    pub fn key(&self) -> (r: u32)
        ensures
            r == self.pid,
    {
        self.pid
    }

    /// The line that shows the process.
    pub fn to_text(&self) -> (r: String)
        ensures
            r@ == shown(self@),
    {
        let mut gpus: Vec<Vec<char>> = Vec::new();
        let mut i: usize = 0;
        while i < self.gpu_indices.len()
            invariant
                i <= self.gpu_indices.len(),
                gpus@.len() == i,
                forall|j: int|
                    0 <= j < i ==> #[trigger] gpus@[j]@ == text::decimal(
                        self.gpu_indices@[j] as nat,
                    ),
            decreases self.gpu_indices.len() - i,
        {
            gpus.push(text::decimal_of(self.gpu_indices[i] as u64));
            i += 1;
        }
        assert(text::texts(gpus@) =~= self.gpu_indices@.map_values(
            |g: u32| text::decimal(g as nat),
        ));
        let mut out = text::chars_of(self.name.as_str());
        text::add_str(&mut out, " (PID ");
        text::add_number(&mut out, self.pid as u64);
        text::add_str(&mut out, " · ");
        text::add_str(&mut out, self.engine.as_str());
        text::add_str(&mut out, " · GPU ");
        if self.gpu_indices.len() == 0 {
            text::add_str(&mut out, "?");
        } else {
            text::add_all(&mut out, &text::join(&gpus, ","));
        }
        text::add_str(&mut out, " · ");
        text::add_number(&mut out, self.mem_used_mb);
        text::add_str(&mut out, " MB)");
        text::string_of(&out)
    }

    /// Short label for compact multi-model panels: the alias or file stem,
    /// trimmed of the quant/size noise that makes every name look the same.
    pub fn short_name(&self) -> (r: String)
        ensures
            r@ == shortened(self.name@),
    {
        let n = text::trim(&text::chars_of(self.name.as_str()));
        let n = match text::after_prefix(&n, "models--") {
            Some(rest) => rest,
            None => n,
        };
        let pieces = text::split(&n, '/');
        assert(text::texts(pieces@).last() == pieces@[pieces@.len() - 1]@);
        // Drop a trailing quant tag so "Qwen3-8B-UD-Q4_K_XL" reads "Qwen3-8B".
        let mut parts = text::split(&pieces[pieces.len() - 1], '-');
        let ghost all = text::texts(parts@);
        while parts.len() > 1 && noise(&text::to_upper(&parts[parts.len() - 1]))
            invariant
                parts.len() > 0,
                without_noise(text::texts(parts@)) == without_noise(all),
            decreases parts.len(),
        {
            let ghost before = text::texts(parts@);
            assert(before.last() == parts@[parts@.len() - 1]@);
            let _ = parts.pop();
            assert(text::texts(parts@) =~= before.drop_last());
        }
        assert(text::texts(parts@).last() == parts@[parts@.len() - 1]@);
        text::string_of(&text::join(&parts, "-"))
    }

    /// Whether this looks like a bare daemon with nothing loaded.
    pub open spec fn idle(self) -> bool {
        self.mem_used_mb == 0 && self.path is None && self.gguf is None
    }

    /// Whether this looks like a bare daemon with nothing loaded.
    pub fn is_idle_daemon(&self) -> (r: bool)
        ensures
            r == self.idle(),
    {
        self.mem_used_mb == 0 && self.path.is_none() && self.gguf.is_none()
    }

    /// Where the topology of the model comes from: the header of its file, else
    /// the config of its directory.
    pub open spec fn topology(self) -> Option<GgufInfo> {
        match self.gguf {
            Some(g) => Some(g),
            None => self.hf,
        }
    }

    fn info(&self) -> (r: Option<&GgufInfo>)
        ensures
            r is Some <==> self.topology() is Some,
            r matches Some(i) ==> self.topology() == Some(*i),
    {
        match &self.gguf {
            Some(g) => Some(g),
            None => match &self.hf {
                Some(h) => Some(h),
                None => None,
            },
        }
    }

    pub fn n_layers(&self) -> (r: usize)
        ensures
            r == (match self.topology() {
                Some(i) => i.n_layers,
                None => 0,
            }),
    {
        match self.info() {
            Some(i) => i.n_layers,
            None => 0,
        }
    }

    pub fn n_heads(&self) -> (r: usize)
        ensures
            r == (match self.topology() {
                Some(i) => i.n_heads,
                None => 0,
            }),
    {
        match self.info() {
            Some(i) => i.n_heads,
            None => 0,
        }
    }

    pub fn n_experts(&self) -> (r: usize)
        ensures
            r == (match self.topology() {
                Some(i) => i.n_experts,
                None => 0,
            }),
    {
        match self.info() {
            Some(i) => i.n_experts,
            None => 0,
        }
    }

    pub fn n_experts_used(&self) -> (r: usize)
        ensures
            r == (match self.topology() {
                Some(i) => i.n_experts_used,
                None => 0,
            }),
    {
        match self.info() {
            Some(i) => i.n_experts_used,
            None => 0,
        }
    }

    /// The context that the model was trained with.
    pub fn ctx_train(&self) -> (r: usize)
        ensures
            r == (match self.topology() {
                Some(i) => i.ctx_train,
                None => 0,
            }),
    {
        match self.info() {
            Some(i) => i.ctx_train,
            None => 0,
        }
    }

    /// The GGUF file that the process serves, if it serves one.
    pub fn gguf_path(&self) -> (r: Option<String>)
        ensures
            r is Some <==> (self.path matches Some(p) && path::extension(p@) == Some("gguf"@)),
            r matches Some(p) ==> self.path matches Some(q) && p@ == q@,
    {
        match &self.path {
            Some(p) => match path::extension_of(&text::chars_of(p.as_str())) {
                Some(e) => if text::is_text(&e, "gguf") {
                    Some(p.clone())
                } else {
                    None
                },
                None => None,
            },
            None => None,
        }
    }

    /// Takes over what the header of the served file says. A name that says
    /// nothing gives way to the one in the header.
    pub fn attach_gguf(&mut self, info: GgufInfo, tensors: Option<TensorSummary>)
        ensures
            final(self)@ == (Model {
                described: Described {
                    name: if says_nothing(old(self).name@) {
                        info.name@
                    } else {
                        old(self).name@
                    },
                    ..old(self)@.described
                },
                ..old(self)@
            }),
            final(self).gguf == Some(info),
            final(self).tensors == tensors,
            final(self).hf == old(self).hf,
    {
        let name = text::chars_of(self.name.as_str());
        if name.len() == 0 || name[0] == '[' || text::is_text(&name, "llama-server") {
            self.name = info.name.clone();
        }
        self.gguf = Some(info);
        self.tensors = tensors;
    }

    /// Puts the GPU indices in ascending order.
    pub fn sort_gpu_indices(&mut self)
        ensures
            ids_ascend(final(self).gpu_indices@),
            final(self).gpu_indices@.to_multiset() =~= old(self).gpu_indices@.to_multiset(),
            *final(self) == (DetectedModel { gpu_indices: final(self).gpu_indices, ..*old(self) }),
    {
        broadcast use vstd::seq_lib::group_to_multiset_ensures;

        let ghost all = self.gpu_indices@;
        let mut out: Vec<u32> = Vec::new();
        let mut k: usize = 0;
        assert(all.take(0) =~= Seq::<u32>::empty());
        while k < self.gpu_indices.len()
            invariant
                k <= self.gpu_indices.len(),
                all == self.gpu_indices@,
                *self == *old(self),
                ids_ascend(out@),
                out@.to_multiset() =~= all.take(k as int).to_multiset(),
            decreases self.gpu_indices.len() - k,
        {
            broadcast use vstd::seq_lib::group_to_multiset_ensures;

            let id = self.gpu_indices[k];
            let mut i: usize = out.len();
            while i > 0 && out[i - 1] > id
                invariant
                    i <= out.len(),
                    ids_ascend(out@),
                    forall|j: int| i <= j < out@.len() ==> id <= out@[j],
                decreases i,
            {
                i -= 1;
            }
            proof {
                assert(all.take(k + 1) =~= all.take(k as int).push(id));
                let before = out@;
                let after = before.insert(i as int, id);
                assert forall|x: int, y: int| 0 <= x <= y < after.len() implies after[x]
                    <= after[y] by {
                    let bx = if x < i { x } else { x - 1 };
                    let by = if y < i { y } else { y - 1 };
                    if i > 0 {
                        assert(before[i - 1] <= id);
                    }
                }
            }
            out.insert(i, id);
            k += 1;
        }
        assert(all.take(all.len() as int) =~= all);
        self.gpu_indices = out;
    }
}

/// How readily an engine is serving a model: a serving engine over an unknown
/// one over a resident daemon.
pub open spec fn engine_rank(engine: Seq<char>) -> int {
    if engine == "llama.cpp"@ || engine == "vllm"@ || engine == "sglang"@ || engine
        == "exllamav2"@ {
        2
    } else if engine == "ollama"@ {
        0
    } else {
        1
    }
}

/// The rank of a detected process: by GPU memory, then by whether a model is
/// known, then by its engine.
pub open spec fn rank(m: DetectedModel) -> int {
    m.mem_used_mb * 6 + (if m.path is Some || m.gguf is Some {
        3int
    } else {
        0
    }) + engine_rank(m.engine@)
}

/// The sort key of a rank: the highest rank has the lowest key.
pub open spec fn rank_key(m: DetectedModel) -> u128 {
    (0x7_0000_0000_0000_0000 - rank(m)) as u128
}

pub open spec fn keyed(models: Seq<DetectedModel>) -> Seq<(u128, DetectedModel)> {
    Seq::new(models.len(), |i: int| (rank_key(models[i]), models[i]))
}

/// The processes by rank, highest first; equals keep their order.
pub open spec fn by_rank(models: Seq<DetectedModel>) -> Seq<DetectedModel> {
    let list = order::sorted(keyed(models));
    Seq::new(list.len(), |i: int| list[i].1)
}

/// The processes to show: by rank, and without the idle daemons where something
/// else is running.
pub open spec fn ranked(models: Seq<DetectedModel>) -> Seq<DetectedModel> {
    let list = by_rank(models);
    if exists|i: int| 0 <= i < list.len() && !(#[trigger] list[i]).idle() {
        list.filter(|m: DetectedModel| !m.idle())
    } else {
        list
    }
}

fn key_of_rank(m: &DetectedModel) -> (r: u128)
    ensures
        r == rank_key(*m),
{
    let e = m.engine.as_str();
    let engine: u128 = if text::same_str(e, "llama.cpp") || text::same_str(e, "vllm")
        || text::same_str(e, "sglang") || text::same_str(e, "exllamav2") {
        2
    } else if text::same_str(e, "ollama") {
        0
    } else {
        1
    };
    let model: u128 = if m.path.is_some() || m.gguf.is_some() {
        3
    } else {
        0
    };
    0x7_0000_0000_0000_0000u128 - ((m.mem_used_mb as u128) * 6 + model + engine)
}

/// Puts the detected processes in the order in which they are shown.
///
/// GPU memory first; when nvidia-smi is unavailable that is zero for all,
/// so fall back to "has a model loaded on its command line" and then to a
/// serving engine over a resident daemon (ollama with nothing loaded).
/// An engine daemon with nothing loaded (ollama waiting for a request) is
/// noise next to a server that is actually serving a model.
pub fn rank_models(models: Vec<DetectedModel>) -> (r: Vec<DetectedModel>)
    ensures
        r@ == ranked(models@),
{
    let ghost all = models@;
    let ghost n = all.len();
    let mut models = models;
    let mut back: Vec<(u128, DetectedModel)> = Vec::new();
    assert(all =~= all.take(n as int));
    while models.len() > 0
        invariant
            models@.len() + back@.len() == n,
            all.len() == n,
            models@ == all.take(models@.len() as int),
            back@ == keyed(all.skip(models@.len() as int)).reverse(),
        decreases models.len(),
    {
        let ghost l = models@;
        let m = models.pop().unwrap();
        let k = key_of_rank(&m);
        back.push((k, m));
        proof {
            let done = all.skip(models@.len() as int);
            assert(models@ =~= all.take(models@.len() as int));
            assert(keyed(done) =~= seq![(k, m)] + keyed(all.skip(l.len() as int)));
            assert(back@ =~= keyed(done).reverse());
        }
    }
    let ghost list = keyed(all);
    proof {
        assert(all.skip(0) =~= all);
        order::lemma_reverse_twice(list);
    }
    let items = order::reversed(back);
    let mut sorted = order::sort(items);
    let ghost fin = order::sorted(list);
    let ghost shown = by_rank(all);
    let mut busy = false;
    let mut i: usize = 0;
    while i < sorted.len()
        invariant
            i <= sorted.len(),
            sorted@ == fin,
            shown == Seq::new(fin.len(), |i: int| fin[i].1),
            busy <==> exists|j: int| 0 <= j < i && !(#[trigger] shown[j]).idle(),
        decreases sorted.len() - i,
    {
        assert(shown[i as int] == sorted@[i as int].1);
        if !sorted[i].1.is_idle_daemon() {
            busy = true;
        }
        i += 1;
    }
    let ghost keep = |m: DetectedModel| !m.idle();
    let ghost want = ranked(all);
    // Taken from the back, so that each one moves out of the list as it stands.
    let mut kept: Vec<DetectedModel> = Vec::new();
    proof {
        assert(fin.take(fin.len() as int) =~= fin);
        assert(shown.take(shown.len() as int) =~= shown);
        assert(shown.skip(shown.len() as int) =~= Seq::<DetectedModel>::empty());
        reveal(Seq::filter);
        assert(shown.skip(shown.len() as int).filter(keep) =~= Seq::<DetectedModel>::empty());
        assert(kept@ =~= Seq::<DetectedModel>::empty().reverse());
    }
    while sorted.len() > 0
        invariant
            shown == Seq::new(fin.len(), |i: int| fin[i].1),
            sorted@.len() <= fin.len(),
            sorted@ == fin.take(sorted@.len() as int),
            keep == (|m: DetectedModel| !m.idle()),
            kept@ == (if busy {
                shown.skip(sorted@.len() as int).filter(keep)
            } else {
                shown.skip(sorted@.len() as int)
            }).reverse(),
        decreases sorted.len(),
    {
        let ghost at = sorted@.len() - 1;
        let ghost k0 = kept@;
        let x = sorted.pop().unwrap();
        let m = x.1;
        proof {
            assert(sorted@ =~= fin.take(at));
            assert(m == shown[at]);
            assert(shown.skip(at) =~= seq![m] + shown.skip(at + 1));
            order::lemma_filter_front(m, shown.skip(at + 1), keep);
        }
        if !busy || !m.is_idle_daemon() {
            kept.push(m);
            proof {
                let tail = if busy {
                    shown.skip(at + 1).filter(keep)
                } else {
                    shown.skip(at + 1)
                };
                assert(kept@ =~= (seq![m] + tail).reverse());
            }
        }
    }
    proof {
        assert(shown.skip(0) =~= shown);
        assert(kept@ == want.reverse());
        order::lemma_reverse_twice(want);
    }
    order::reversed(kept)
}

/// The list that is shown holds detected processes alone, in descending order of
/// rank. An idle daemon is shown only where nothing else runs; every other process
/// is shown.
pub proof fn ranking_orders_and_hides(models: Seq<DetectedModel>)
    ensures
        forall|i: int, j: int|
            0 <= i <= j < ranked(models).len() ==> rank(ranked(models)[i]) >= rank(
                ranked(models)[j],
            ),
        (exists|i: int| 0 <= i < models.len() && !(#[trigger] models[i]).idle()) ==> forall|i: int|
            0 <= i < ranked(models).len() ==> !(#[trigger] ranked(models)[i]).idle(),
        forall|i: int|
            0 <= i < models.len() && !(#[trigger] models[i]).idle() ==> ranked(models).contains(
                models[i],
            ),
        forall|i: int|
            0 <= i < ranked(models).len() ==> models.contains(#[trigger] ranked(models)[i]),
{
    let list = order::sorted(keyed(models));
    let all = by_rank(models);
    let keep = |m: DetectedModel| !m.idle();
    order::sorting_keeps_the_items(keyed(models));
    lemma_keys(models);
    assert forall|i: int, j: int| 0 <= i <= j < all.len() implies rank(all[i]) >= rank(all[j]) by {
        assert(list[i].0 <= list[j].0);
    }
    lemma_filter_ordered(all, keep);
    assert forall|i: int| 0 <= i < models.len() implies all.contains(#[trigger] models[i]) by {
        let x = keyed(models)[i];
        broadcast use vstd::seq_lib::group_to_multiset_ensures;

        assert(keyed(models).contains(x));
        assert(list.to_multiset().count(x) > 0);
        assert(list.contains(x));
        let k = choose|k: int| 0 <= k < list.len() && list[k] == x;
        assert(all[k] == models[i]);
    }
    assert forall|i: int| 0 <= i < all.len() implies models.contains(#[trigger] all[i]) by {
        broadcast use vstd::seq_lib::group_to_multiset_ensures;

        assert(list.contains(list[i]));
        assert(keyed(models).to_multiset().count(list[i]) > 0);
        assert(keyed(models).contains(list[i]));
        let k = choose|k: int| 0 <= k < keyed(models).len() && keyed(models)[k] == list[i];
        assert(models[k] == all[i]);
    }
    assert forall|i: int| 0 <= i < ranked(models).len() implies models.contains(
        #[trigger] ranked(models)[i],
    ) by {
        let m = ranked(models)[i];
        assert(all.contains(m)) by {
            if ranked(models) == all.filter(keep) {
                assert(all.contains(all.filter(keep)[i]));
            } else {
                assert(all[i] == m);
            }
        }
        let k = choose|k: int| 0 <= k < all.len() && all[k] == m;
        assert(models.contains(all[k]));
    }
    if exists|i: int| 0 <= i < models.len() && !(#[trigger] models[i]).idle() {
        let i = choose|i: int| 0 <= i < models.len() && !(#[trigger] models[i]).idle();
        assert(all.contains(models[i]));
        let k = choose|k: int| 0 <= k < all.len() && all[k] == models[i];
        assert(!all[k].idle());
        assert(ranked(models) == all.filter(keep));
        assert forall|j: int| 0 <= j < all.filter(keep).len() implies !(#[trigger] all.filter(
            keep,
        )[j]).idle() by {
            assert(keep(all.filter(keep)[j]));
        }
        assert forall|j: int|
            0 <= j < models.len() && !(#[trigger] models[j]).idle() implies ranked(models).contains(
            models[j],
        ) by {
            assert(all.contains(models[j]));
            assert(keep(models[j]));
        }
    }
}

/// Ranking keeps a process from being listed twice.
pub proof fn ranking_lists_once(models: Seq<DetectedModel>)
    requires
        listed_once(models_view(models)),
    ensures
        listed_once(models_view(ranked(models))),
{
    broadcast use vstd::seq_lib::group_to_multiset_ensures;

    let items = keyed(models);
    let list = order::sorted(items);
    let all = by_rank(models);
    order::sorting_keeps_the_items(items);
    assert forall|i: int, j: int| 0 <= i < j < items.len() implies items[i] != items[j] by {
        assert(models_view(models)[i].pid == models[i].pid);
        assert(models_view(models)[j].pid == models[j].pid);
    }
    assert(items.no_duplicates());
    items.lemma_multiset_has_no_duplicates();
    assert(list.to_multiset() =~= items.to_multiset());
    list.lemma_multiset_has_no_duplicates_conv();
    assert forall|i: int, j: int| 0 <= i < j < all.len() implies all[i].pid != all[j].pid by {
        assert(list.contains(list[i]) && list.contains(list[j]));
        assert(items.to_multiset().count(list[i]) > 0 && items.to_multiset().count(list[j]) > 0);
        assert(items.contains(list[i]) && items.contains(list[j]));
        let a = choose|a: int| 0 <= a < items.len() && items[a] == list[i];
        let b = choose|b: int| 0 <= b < items.len() && items[b] == list[j];
        assert(list[i] != list[j]);
        assert(a != b);
        assert(models_view(models)[a].pid == all[i].pid);
        assert(models_view(models)[b].pid == all[j].pid);
    }
    lemma_filter_distinct(all, |m: DetectedModel| !m.idle());
    assert forall|i: int, j: int|
        0 <= i < j < ranked(models).len() implies models_view(ranked(models))[i].pid != models_view(
        ranked(models),
    )[j].pid by {
        assert(ranked(models)[i].pid != ranked(models)[j].pid);
    }
}

proof fn lemma_filter_distinct(list: Seq<DetectedModel>, keep: spec_fn(DetectedModel) -> bool)
    requires
        forall|i: int, j: int| 0 <= i < j < list.len() ==> list[i].pid != list[j].pid,
    ensures
        forall|i: int, j: int|
            0 <= i < j < list.filter(keep).len() ==> list.filter(keep)[i].pid != list.filter(
                keep,
            )[j].pid,
        forall|i: int|
            0 <= i < list.filter(keep).len() ==> list.contains(#[trigger] list.filter(keep)[i]),
    decreases list.len(),
{
    reveal(Seq::filter);
    if list.len() > 0 {
        let head = list.drop_last();
        lemma_filter_distinct(head, keep);
        let f = head.filter(keep);
        let g = list.filter(keep);
        assert forall|i: int| 0 <= i < f.len() implies #[trigger] f[i].pid != list.last().pid
            && list.contains(f[i]) by {
            assert(head.contains(f[i]));
            let k = choose|k: int| 0 <= k < head.len() && head[k] == f[i];
            assert(list[k] == f[i]);
        }
        if keep(list.last()) {
            assert(g == f.push(list.last()));
            assert(list[list.len() - 1] == list.last());
        }
    }
}

/// The items of a sorted list carry the keys of their ranks.
proof fn lemma_keys(models: Seq<DetectedModel>)
    ensures
        forall|i: int|
            #![trigger order::sorted(keyed(models))[i]]
            0 <= i < order::sorted(keyed(models)).len() ==> order::sorted(keyed(models))[i].0 == (
            0x7_0000_0000_0000_0000 - rank(order::sorted(keyed(models))[i].1)),
{
    let list = order::sorted(keyed(models));
    order::sorting_keeps_the_items(keyed(models));
    assert forall|i: int|
        #![trigger list[i]]
        0 <= i < list.len() implies list[i].0 == (0x7_0000_0000_0000_0000 - rank(list[i].1)) by {
        broadcast use vstd::seq_lib::group_to_multiset_ensures;

        assert(list.contains(list[i]));
        assert(keyed(models).to_multiset().count(list[i]) > 0);
        assert(keyed(models).contains(list[i]));
        let k = choose|k: int| 0 <= k < keyed(models).len() && keyed(models)[k] == list[i];
        assert(keyed(models)[k].0 == rank_key(models[k]));
        assert(0 <= rank(models[k]) <= 0x6_0000_0000_0000_0000);
    }
}

/// Leaving members out keeps the order of the others.
proof fn lemma_filter_ordered(list: Seq<DetectedModel>, keep: spec_fn(DetectedModel) -> bool)
    requires
        forall|i: int, j: int| 0 <= i <= j < list.len() ==> rank(list[i]) >= rank(list[j]),
    ensures
        forall|i: int, j: int|
            0 <= i <= j < list.filter(keep).len() ==> rank(list.filter(keep)[i]) >= rank(
                list.filter(keep)[j],
            ),
        forall|i: int|
            0 <= i < list.filter(keep).len() && list.len() > 0 ==> rank(
                #[trigger] list.filter(keep)[i],
            ) >= rank(list.last()),
        forall|i: int|
            0 <= i < list.filter(keep).len() ==> keep(#[trigger] list.filter(keep)[i]),
        forall|i: int|
            0 <= i < list.filter(keep).len() ==> list.contains(#[trigger] list.filter(keep)[i]),
        forall|m: DetectedModel|
            list.contains(m) && keep(m) ==> #[trigger] list.filter(keep).contains(m),
    decreases list.len(),
{
    reveal(Seq::filter);
    if list.len() > 0 {
        let head = list.drop_last();
        lemma_filter_ordered(head, keep);
        let f = head.filter(keep);
        assert forall|i: int| 0 <= i < list.filter(keep).len() implies list.contains(
            #[trigger] list.filter(keep)[i],
        ) by {
            if i < f.len() {
                assert(head.contains(f[i]));
                let k = choose|k: int| 0 <= k < head.len() && head[k] == f[i];
                assert(list[k] == f[i]);
            } else {
                assert(list[list.len() - 1] == list.filter(keep)[i]);
            }
        }
        if head.len() > 0 {
            assert(head.last() == list[list.len() - 2]);
            assert(rank(head.last()) >= rank(list.last()));
        }
        assert(f.len() <= head.len()) by {
            lemma_filter_len(head, keep);
        }
        assert forall|m: DetectedModel| list.contains(m) && keep(m) implies #[trigger] list.filter(
            keep,
        ).contains(m) by {
            let k = choose|k: int| 0 <= k < list.len() && list[k] == m;
            if k < head.len() {
                assert(head[k] == m);
                assert(f.contains(m));
                let q = choose|q: int| 0 <= q < f.len() && f[q] == m;
                assert(list.filter(keep)[q] == m);
            } else {
                assert(list.filter(keep)[f.len() as int] == m);
            }
        }
    }
}

proof fn lemma_filter_len(list: Seq<DetectedModel>, keep: spec_fn(DetectedModel) -> bool)
    ensures
        list.filter(keep).len() <= list.len(),
    decreases list.len(),
{
    reveal(Seq::filter);
    if list.len() > 0 {
        lemma_filter_len(list.drop_last(), keep);
    }
}

/// What was read of the files that a process serves.
#[derive(Clone, Debug)]
pub struct ModelFiles {
    /// The header of its GGUF file, if it serves one that could be read.
    pub info: Option<GgufInfo>,
    /// The tensor table of that file.
    pub tensors: Option<TensorSummary>,
    /// The topology in the config of the directory that it serves.
    pub hf: Option<GgufInfo>,
}

/// A name that says nothing of the model.
pub open spec fn says_nothing(name: Seq<char>) -> bool {
    name.len() == 0 || name[0] == '[' || name == "llama-server"@
}

/// `out` is the process `m` with what was read of its files, and its GPU indices
/// in ascending order.
pub open spec fn settles(m: DetectedModel, files: ModelFiles, out: DetectedModel) -> bool {
    &&& out@ == (Model {
        described: Described {
            name: match files.info {
                Some(info) => if says_nothing(m.name@) {
                    info.name@
                } else {
                    m.name@
                },
                None => m.name@,
            },
            ..m@.described
        },
        gpu_indices: out.gpu_indices@,
        ..m@
    })
    &&& ids_ascend(out.gpu_indices@)
    &&& out.gpu_indices@.to_multiset() == m.gpu_indices@.to_multiset()
    &&& out.hf == files.hf
    &&& files.info is Some ==> out.gguf == files.info && out.tensors == files.tensors
    &&& files.info is None ==> out.gguf == m.gguf && out.tensors == m.tensors
}

/// A process that is settled keeps its cards: where it had none twice, they are in
/// strictly ascending order.
pub proof fn settled_cards_ascend(m: DetectedModel, files: ModelFiles, out: DetectedModel)
    requires
        settles(m, files, out),
        m.gpu_indices@.no_duplicates(),
    ensures
        forall|i: int, j: int|
            0 <= i < j < out.gpu_indices@.len() ==> out.gpu_indices@[i] < out.gpu_indices@[j],
        forall|g: u32| #[trigger] out.gpu_indices@.contains(g) <==> m.gpu_indices@.contains(g),
{
    broadcast use vstd::seq_lib::group_to_multiset_ensures;

    m.gpu_indices@.lemma_multiset_has_no_duplicates();
    out.gpu_indices@.lemma_multiset_has_no_duplicates_conv();
    assert forall|g: u32| #[trigger]
        out.gpu_indices@.contains(g) <==> m.gpu_indices@.contains(g) by {
        let a = out.gpu_indices@.to_multiset();
        let b = m.gpu_indices@.to_multiset();
        assert(a.count(g) == b.count(g));
        assert(out.gpu_indices@.contains(g) <==> a.count(g) > 0);
        assert(m.gpu_indices@.contains(g) <==> b.count(g) > 0);
    }
}

/// Every process of a list is settled with its files.
pub open spec fn all_settle(
    models: Seq<DetectedModel>,
    files: Seq<ModelFiles>,
    out: Seq<DetectedModel>,
) -> bool {
    out.len() == models.len() && forall|i: int|
        0 <= i < models.len() ==> settles(models[i], files[i], #[trigger] out[i])
}

/// Completes detection: each process takes over what was read of its files, and
/// the list is put in the order in which it is shown.
pub fn settle_models(models: Vec<DetectedModel>, files: Vec<ModelFiles>) -> (r: Vec<DetectedModel>)
    requires
        models@.len() == files@.len(),
    ensures
        exists|mid: Seq<DetectedModel>|
            #[trigger] all_settle(models@, files@, mid) && r@ == ranked(mid),
{
    let ghost all = models@;
    let ghost read = files@;
    let mut models = order::reversed(models);
    let mut files = order::reversed(files);
    let mut out: Vec<DetectedModel> = Vec::new();
    while models.len() > 0 && files.len() > 0
        invariant
            all.len() == read.len(),
            out@.len() + models@.len() == all.len(),
            models@.len() == files@.len(),
            forall|j: int|
                0 <= j < models@.len() ==> #[trigger] models@[j] == all[all.len() - 1 - j],
            forall|j: int|
                0 <= j < files@.len() ==> #[trigger] files@[j] == read[read.len() - 1 - j],
            forall|j: int|
                0 <= j < out@.len() ==> settles(all[j], read[j], #[trigger] out@[j]),
        decreases models.len(),
    {
        let ghost done = out@.len() as int;
        let ghost m_last = models@[models@.len() - 1];
        let ghost f_last = files@[files@.len() - 1];
        assert(m_last == all[done]);
        assert(f_last == read[done]);
        let m = models.pop().unwrap();
        let f = files.pop().unwrap();
        let mut m = m;
        let ghost was = m;
        let ghost of = f;
        m.sort_gpu_indices();
        m.hf = f.hf;
        if let Some(info) = f.info {
            m.attach_gguf(info, f.tensors);
        }
        assert(settles(was, of, m));
        out.push(m);
    }
    assert(all_settle(all, read, out@));
    rank_models(out)
}

/// The word after the first `flag` of a command line.
pub open spec fn word_after(toks: Seq<Seq<char>>, flag: Seq<char>, i: int) -> Option<Seq<char>>
    decreases toks.len() - i,
{
    if i + 1 >= toks.len() {
        None
    } else if toks[i] == flag {
        Some(toks[i + 1])
    } else {
        word_after(toks, flag, i + 1)
    }
}

fn word_after_flag(toks: &Vec<Vec<char>>, flag: &str) -> (r: Option<Vec<char>>)
    ensures
        r is Some <==> word_after(text::texts(toks@), flag@, 0) is Some,
        r matches Some(v) ==> word_after(text::texts(toks@), flag@, 0) == Some(v@),
{
    let ghost all = text::texts(toks@);
    let n: usize = toks.len();
    let mut i: usize = 0;
    while i < n && n - i > 1
        invariant
            i <= n,
            n == toks.len(),
            all == text::texts(toks@),
            word_after(all, flag@, i as int) == word_after(all, flag@, 0),
        decreases n - i,
    {
        assert(all[i as int] == toks@[i as int]@);
        if text::is_text(&toks[i], flag) {
            let v = text::part(&toks[i + 1], 0, toks[i + 1].len());
            assert(all[i + 1] == toks@[i + 1]@);
            assert(v@ =~= all[i + 1]);
            return Some(v);
        }
        i += 1;
    }
    None
}

/// The port in the word after a flag.
pub open spec fn port_after(toks: Seq<Seq<char>>, flag: Seq<char>) -> Option<nat> {
    match word_after(toks, flag, 0) {
        Some(v) => text::unsigned(v, u16::MAX as nat),
        None => None,
    }
}

/// The host's port that a `docker-proxy` publishes for one port of a container with
/// one of some addresses. A container has one proxy for each port that it
/// publishes, so the address alone does not tell them apart.
pub open spec fn published_by(cmdline: Seq<char>, addresses: Seq<Seq<char>>, port: u16) -> Option<
    nat,
> {
    let toks = text::words(cmdline);
    if toks.len() > 0 && base_name(toks[0]) == "docker-proxy"@ && (word_after(
        toks,
        "-container-ip"@,
        0,
    ) matches Some(ip) && addresses.contains(ip)) && port_after(toks, "-container-port"@) == Some(
        port as nat,
    ) {
        port_after(toks, "-host-port"@)
    } else {
        None
    }
}

/// The first of the ports that the command lines from `i` on publish.
pub open spec fn first_published(
    lines: Seq<Seq<char>>,
    addresses: Seq<Seq<char>>,
    port: u16,
    i: int,
) -> Option<nat>
    decreases lines.len() - i,
{
    if i >= lines.len() {
        None
    } else {
        match published_by(lines[i], addresses, port) {
            Some(p) => Some(p),
            None => first_published(lines, addresses, port, i + 1),
        }
    }
}

fn port_of_flag(toks: &Vec<Vec<char>>, flag: &str) -> (r: Option<u16>)
    ensures
        r is Some <==> port_after(text::texts(toks@), flag@) is Some,
        r matches Some(p) ==> port_after(text::texts(toks@), flag@) == Some(p as nat),
{
    match word_after_flag(toks, flag) {
        Some(v) => match text::parse_unsigned(&v, u16::MAX as u64) {
            Some(n) => Some(n as u16),
            None => None,
        },
        None => None,
    }
}

fn published_in(cmdline: &str, addresses: &[String], port: u16) -> (r: Option<u16>)
    ensures
        r is Some <==> published_by(cmdline@, text::strings(addresses@), port) is Some,
        r matches Some(p) ==> published_by(cmdline@, text::strings(addresses@), port) == Some(
            p as nat,
        ),
{
    let toks = text::words_of(&text::chars_of(cmdline));
    if toks.len() == 0 {
        return None;
    }
    assert(text::texts(toks@)[0] == toks@[0]@);
    if !text::is_text(&base_name_of(&toks[0]), "docker-proxy") {
        return None;
    }
    match word_after_flag(&toks, "-container-ip") {
        Some(ip) => if !text::is_among(&ip, addresses) {
            return None;
        },
        None => return None,
    }
    match port_of_flag(&toks, "-container-port") {
        Some(p) => if p != port {
            return None;
        },
        None => return None,
    }
    port_of_flag(&toks, "-host-port")
}

/// The port at which the host reaches a container's port, among the command lines
/// of the machine's processes.
pub fn published_port(lines: &[String], addresses: &[String], port: u16) -> (r: Option<u16>)
    ensures
        r is Some <==> first_published(text::strings(lines@), text::strings(addresses@), port, 0)
            is Some,
        r matches Some(p) ==> first_published(
            text::strings(lines@),
            text::strings(addresses@),
            port,
            0,
        ) == Some(p as nat),
{
    let ghost all = text::strings(lines@);
    let mut i: usize = 0;
    while i < lines.len()
        invariant
            i <= lines.len(),
            all == text::strings(lines@),
            first_published(all, text::strings(addresses@), port, i as int) == first_published(
                all,
                text::strings(addresses@),
                port,
                0,
            ),
        decreases lines.len() - i,
    {
        assert(all[i as int] == lines@[i as int]@);
        if let Some(p) = published_in(lines[i].as_str(), addresses, port) {
            return Some(p);
        }
        i += 1;
    }
    None
}

/// The addresses in the first `n` lines of a routing table of the form of
/// `/proc/<pid>/net/fib_trie`.
pub open spec fn addresses_upto(lines: Seq<Seq<char>>, n: int) -> Seq<Seq<char>>
    decreases n,
{
    if n <= 0 {
        Seq::empty()
    } else {
        let before = addresses_upto(lines, n - 1);
        let line = text::trimmed(lines[n - 1]);
        if text::has_prefix(line, "|-- "@) {
            before.push(line.skip("|-- "@.len() as int))
        } else {
            before
        }
    }
}

/// The addresses in a routing table.
pub fn addresses_in(table: &str) -> (r: Vec<String>)
    ensures
        text::strings(r@) == addresses_upto(
            text::lines(table@),
            text::lines(table@).len() as int,
        ),
{
    let lines = text::lines_of(&text::chars_of(table));
    let ghost all = text::texts(lines@);
    let mut out: Vec<String> = Vec::new();
    let mut i: usize = 0;
    assert(text::strings(out@) =~= Seq::<Seq<char>>::empty());
    while i < lines.len()
        invariant
            i <= lines.len(),
            all == text::texts(lines@),
            text::strings(out@) == addresses_upto(all, i as int),
        decreases lines.len() - i,
    {
        assert(all[i as int] == lines@[i as int]@);
        if let Some(address) = text::after_prefix(&text::trim(&lines[i]), "|-- ") {
            let ghost before = text::strings(out@);
            out.push(text::string_of(&address));
            assert(text::strings(out@) =~= before.push(address@));
        }
        i += 1;
    }
    out
}

/// The port at which the host reaches a server in a container: the one that is
/// published for its own, which is 8000 where it names none; else its own.
pub open spec fn reached_at(
    own: Option<u16>,
    lines: Seq<Seq<char>>,
    addresses: Seq<Seq<char>>,
) -> Option<u16> {
    let port = match own {
        Some(p) => p,
        None => 8000,
    };
    match first_published(lines, addresses, port, 0) {
        Some(p) => Some(p as u16),
        None => own,
    }
}

impl DetectedModel {
    /// Takes over the port at which the host reaches a server in a container. A
    /// server that names no port listens on 8000.
    pub fn publish(&mut self, lines: &[String], addresses: &[String])
        ensures
            final(self).port == reached_at(
                old(self).port,
                text::strings(lines@),
                text::strings(addresses@),
            ),
            ({
                let port = match old(self).port {
                    Some(p) => p,
                    None => 8000,
                };
                let found = first_published(
                    text::strings(lines@),
                    text::strings(addresses@),
                    port,
                    0,
                );
                *final(self) == (DetectedModel {
                    port: match found {
                        Some(p) => Some(p as u16),
                        None => old(self).port,
                    },
                    ..*old(self)
                })
            }),
    {
        if let Some(p) = published_port(lines, addresses, self.port.unwrap_or(8000)) {
            self.port = Some(p);
        }
    }
}

/// Of the ports that a container publishes, the one is found that stands for the
/// server's own: a proxy for another port or another address is passed over.
pub proof fn other_ports_are_passed_over(
    lines: Seq<Seq<char>>,
    addresses: Seq<Seq<char>>,
    port: u16,
    i: int,
)
    requires
        0 <= i,
    ensures
        first_published(lines, addresses, port, i) matches Some(p) ==> exists|k: int|
            i <= k < lines.len() && published_by(#[trigger] lines[k], addresses, port) == Some(p)
                && port_after(text::words(lines[k]), "-container-port"@) == Some(port as nat),
    decreases lines.len() - i,
{
    if i < lines.len() {
        if published_by(lines[i], addresses, port) is None {
            other_ports_are_passed_over(lines, addresses, port, i + 1);
        } else {
            assert(published_by(lines[i], addresses, port) is Some);
        }
    }
}

} // verus!
