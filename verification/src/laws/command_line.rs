//! What a command line says of the server that it started.
use crate::model_detect::{completed, described_from, engine_in, first_published, lemma_carried};
use crate::model_detect::{lemma_option_names, lemma_read_front, mentions, model_ref, word_after};
use crate::model_detect::{nothing_described, nothing_placed, option_named, positional_from};
use crate::model_detect::{proportions, published_by, told, waits, Described};
use crate::path;
use crate::text;
use vstd::prelude::*;

verus! {

/// A word that writes a number reads as the number.
proof fn lemma_number(n: nat, max: nat)
    requires
        n <= max,
    ensures
        text::unsigned(text::decimal(n), max) == Some(n),
{
    text::lemma_decimal_reads_back(n);
    let w = text::decimal(n);
    assert(w[0] != '+') by {
        assert(text::is_digit(w[0]));
    }
}

proof fn lemma_last_option(toks: Seq<Seq<char>>, f: Seq<char>, v: Seq<char>)
    requires
        !waits(toks, 0),
        option_named(f) is Some,
    ensures
        ({
            let all = toks + seq![f, v];
            let d = described_from(toks, 0, nothing_described());
            &&& described_from(all, 0, nothing_described()) == d.with(option_named(f)->0, v)
            &&& positional_from(all, 0, nothing_placed()).place == positional_from(
                toks,
                0,
                nothing_placed(),
            ).place
        }),
{
    let all = toks + seq![f, v];
    let n = toks.len() as int;
    lemma_option_names(f);
    lemma_carried(f, v);
    lemma_read_front(toks, seq![f, v], 0, nothing_described(), nothing_placed());
    assert(all[n] == f && all[n + 1] == v);
    reveal_with_fuel(described_from, 2);
    reveal_with_fuel(positional_from, 2);
}

/// The option that comes last counts, and says just one thing: the port, the context, the
/// layers on the cards, the speculation or the proportions of the cards. All else is as
/// the words before it say.
pub proof fn the_last_option_counts(toks: Seq<Seq<char>>, f: Seq<char>, v: Seq<char>, n: nat)
    requires
        !waits(toks, 0),
    ensures
        ({
            let before = told(toks);
            let after = told(toks + seq![f, v]);
            &&& f == "--port"@ && n <= 0xffff && v == text::decimal(n) ==> after == (Described {
                port: Some(n as u16),
                ..before
            })
            &&& (f == "--ctx-size"@ || f == "--ctx_size"@ || f == "-c"@) && n <= usize::MAX && v
                == text::decimal(n) ==> after == (Described { ctx_max: Some(n as usize), ..before })
            &&& (f == "--n-gpu-layers"@ || f == "-ngl"@) && n <= 0xffff_ffff && v == text::decimal(
                n,
            ) ==> after == (Described { n_gpu_layers: Some(n as u32), ..before })
            &&& f == "--spec-type"@ || f == "--spec_type"@ ==> after == (Described {
                spec_type: Some(v),
                ..before
            })
            &&& f == "--tensor-split"@ || f == "--tensor_split"@ ==> after == (Described {
                tensor_split: proportions(v),
                ..before
            })
        }),
{
    lemma_option_literals();
    if option_named(f) is Some {
        lemma_last_option(toks, f, v);
    }
    if n <= 0xffff {
        lemma_number(n, 0xffff);
    }
    if n <= usize::MAX {
        lemma_number(n, usize::MAX as nat);
    }
    if n <= 0xffff_ffff {
        lemma_number(n, 0xffff_ffff);
    }
}

/// An alias is the name of the model, whatever its file is called. A model's own option
/// gives the path, and the stem of its file for a name; both leave all else as it is.
pub proof fn the_last_name_counts(toks: Seq<Seq<char>>, f: Seq<char>, v: Seq<char>)
    requires
        !waits(toks, 0),
    ensures
        ({
            let before = told(toks);
            let after = told(toks + seq![f, v]);
            &&& f == "--alias"@ && v.len() > 0 ==> after == (Described { name: v, ..before })
            &&& f == "--model"@ || f == "-m"@ || f == "--model-path"@ ==> after == (Described {
                path: Some(v),
                name: if path::file_stem(v) is Some {
                    path::file_stem(v)->0
                } else {
                    v
                },
                ..before
            })
        }),
{
    lemma_option_literals();
    if option_named(f) is Some {
        lemma_last_option(toks, f, v);
    }
}

/// The words that name options differ from one another.
proof fn lemma_option_literals()
    ensures
        option_named("--model"@) == Some(crate::model_detect::ServerOption::Model),
        option_named("-m"@) == Some(crate::model_detect::ServerOption::Model),
        option_named("--model-path"@) == Some(crate::model_detect::ServerOption::Model),
        option_named("--alias"@) == Some(crate::model_detect::ServerOption::Alias),
        option_named("--port"@) == Some(crate::model_detect::ServerOption::Port),
        option_named("--ctx-size"@) == Some(crate::model_detect::ServerOption::Context),
        option_named("--ctx_size"@) == Some(crate::model_detect::ServerOption::Context),
        option_named("-c"@) == Some(crate::model_detect::ServerOption::Context),
        option_named("--spec-type"@) == Some(crate::model_detect::ServerOption::SpecType),
        option_named("--spec_type"@) == Some(crate::model_detect::ServerOption::SpecType),
        option_named("--n-gpu-layers"@) == Some(crate::model_detect::ServerOption::GpuLayers),
        option_named("-ngl"@) == Some(crate::model_detect::ServerOption::GpuLayers),
        option_named("--tensor-split"@) == Some(crate::model_detect::ServerOption::TensorSplit),
        option_named("--tensor_split"@) == Some(crate::model_detect::ServerOption::TensorSplit),
{
    reveal_strlit("--model");
    reveal_strlit("-m");
    reveal_strlit("--model-path");
    reveal_strlit("--alias");
    reveal_strlit("--port");
    reveal_strlit("--ctx-size");
    reveal_strlit("--ctx_size");
    reveal_strlit("-c");
    reveal_strlit("--spec-type");
    reveal_strlit("--spec_type");
    reveal_strlit("--n-gpu-layers");
    reveal_strlit("-ngl");
    reveal_strlit("--tensor-split");
    reveal_strlit("--tensor_split");
    assert("--model"@.len() == 7 && "-m"@.len() == 2 && "--model-path"@.len() == 12);
    assert("--alias"@.len() == 7 && "--alias"@[2] == 'a' && "--model"@[2] == 'm');
    assert("--port"@.len() == 6);
    assert("--ctx-size"@.len() == 10 && "--ctx_size"@.len() == 10);
    assert("-c"@.len() == 2 && "-c"@[1] == 'c' && "-m"@[1] == 'm');
    assert("--spec-type"@.len() == 11 && "--spec_type"@.len() == 11);
    assert("--n-gpu-layers"@.len() == 14 && "-ngl"@.len() == 4);
    assert("--tensor-split"@.len() == 14 && "--tensor_split"@.len() == 14);
    assert("--n-gpu-layers"@[2] == 'n' && "--tensor-split"@[2] == 't' && "--tensor_split"@[2]
        == 't');
}

/// A port that the words give is the server's; where they give none, llama.cpp listens on
/// 8080 and ollama on 11434, and of other engines none is known. A server without a name
/// goes by that of its program. All else is as the words say.
pub proof fn engines_have_their_usual_ports(d: Described, process_name: Seq<char>, e: Seq<char>)
    ensures
        ({
            let c = completed(d, process_name, e);
            &&& d.port is Some ==> c.port == d.port
            &&& d.port is None && e == "llama.cpp"@ ==> c.port == Some(8080u16)
            &&& d.port is None && e == "ollama"@ ==> c.port == Some(11434u16)
            &&& d.port is None && e != "llama.cpp"@ && e != "ollama"@ ==> c.port is None
            &&& d.name.len() > 0 ==> c.name == d.name
            &&& d.name.len() == 0 ==> c.name == if path::file_name(process_name) is Some {
                path::file_name(process_name)->0
            } else {
                process_name
            }
            &&& c.path == d.path && c.ctx_max == d.ctx_max && c.spec_type == d.spec_type
                && c.n_gpu_layers == d.n_gpu_layers && c.tensor_split == d.tensor_split
        }),
{
    reveal_strlit("ollama");
    reveal_strlit("llama.cpp");
    assert("ollama"@.len() != "llama.cpp"@.len());
}

/// An engine is told by the words of its own; where there are several, llama.cpp comes
/// first, then ollama, vllm, sglang and exllama. A text with none of them tells no
/// particular engine.
pub proof fn engines_are_told_by_their_words(s: Seq<char>)
    ensures
        ({
            let llama = text::has_part(s, "llama-server"@) || text::has_part(s, "llama.cpp"@);
            let ollama = text::has_part(s, "ollama"@);
            let vllm = text::has_part(s, "vllm"@);
            let sglang = text::has_part(s, "sglang"@);
            let exllama = text::has_part(s, "exllama"@);
            &&& llama ==> engine_in(s) == "llama.cpp"@
            &&& !llama && ollama ==> engine_in(s) == "ollama"@
            &&& !llama && !ollama && vllm ==> engine_in(s) == "vllm"@
            &&& !llama && !ollama && !vllm && sglang ==> engine_in(s) == "sglang"@
            &&& !llama && !ollama && !vllm && !sglang && exllama ==> engine_in(s) == "exllamav2"@
            &&& !llama && !ollama && !vllm && !sglang && !exllama ==> engine_in(s) == "llm"@
        }),
{
}

/// The words by which an inference server is known.
pub open spec fn known_words() -> Seq<Seq<char>> {
    seq![
        "llama-server"@,
        "llama-cli"@,
        "llama.cpp"@,
        "ollama"@,
        "vllm"@,
        "sglang"@,
        "exllama"@,
        "text-generation"@,
        "aphrodite"@,
        "tensorrt-llm"@,
        "lmdeploy"@,
        "kobold"@,
        "tabbyapi"@,
        "transformers"@,
        ".gguf"@,
    ]
}

/// A process with one of the known words in its name or on its command line is an
/// inference server, and one with none of them names no engine.
pub proof fn servers_are_known_by_their_words(p: Seq<char>, c: Seq<char>)
    ensures
        mentions(p, c) <==> exists|i: int|
            0 <= i < known_words().len() && (text::has_part(p, #[trigger] known_words()[i])
                || text::has_part(c, known_words()[i])),
{
    let w = known_words();
    assert(w[0] == "llama-server"@ && w[1] == "llama-cli"@ && w[2] == "llama.cpp"@ && w[3]
        == "ollama"@ && w[4] == "vllm"@ && w[5] == "sglang"@ && w[6] == "exllama"@ && w[7]
        == "text-generation"@ && w[8] == "aphrodite"@ && w[9] == "tensorrt-llm"@ && w[10]
        == "lmdeploy"@ && w[11] == "kobold"@ && w[12] == "tabbyapi"@ && w[13] == "transformers"@
        && w[14] == ".gguf"@);
    assert(w.len() == 15);
}

/// The endings of the names of weight files.
pub open spec fn weight_endings() -> Seq<Seq<char>> {
    seq![".gguf"@, ".safetensors"@, ".bin"@, ".pt"@, ".pth"@, ".onnx"@]
}

/// An argument is a model where it ends like a weights file, wherever it lies. What is
/// written as a place is one only where it is a directory, and what is not, only in the
/// form of a model hub.
pub proof fn models_are_files_directories_or_ids(
    v: Seq<char>,
    lower: Seq<char>,
    dirs: Seq<Seq<char>>,
)
    ensures
        (exists|i: int|
            0 <= i < weight_endings().len() && text::has_suffix(
                lower,
                #[trigger] weight_endings()[i],
            )) ==> model_ref(v, lower, dirs),
        (forall|i: int|
            0 <= i < weight_endings().len() ==> !text::has_suffix(
                lower,
                #[trigger] weight_endings()[i],
            )) ==> {
            &&& v.len() > 0 && (v[0] == '/' || v[0] == '.' || v[0] == '~') ==> (model_ref(
                v,
                lower,
                dirs,
            ) <==> dirs.contains(v))
            &&& !(v.len() > 0 && (v[0] == '/' || v[0] == '.' || v[0] == '~')) ==> (model_ref(
                v,
                lower,
                dirs,
            ) <==> text::count_char(v, '/') == 1 && text::utf8_size(v) > 3 && text::count_char(
                text::before(v, "/"@),
                '.',
            ) == 0)
        },
{
    let w = weight_endings();
    assert(w[0] == ".gguf"@ && w[1] == ".safetensors"@ && w[2] == ".bin"@ && w[3] == ".pt"@ && w[4]
        == ".pth"@ && w[5] == ".onnx"@);
    assert(w.len() == 6);
}

/// The word after a flag is that after the first place where the flag stands, if a word
/// follows there.
pub proof fn the_first_flag_counts(toks: Seq<Seq<char>>, flag: Seq<char>, k: int)
    requires
        0 <= k < toks.len(),
        toks[k] == flag,
        forall|j: int| 0 <= j < k ==> #[trigger] toks[j] != flag,
    ensures
        k + 1 < toks.len() ==> word_after(toks, flag, 0) == Some(toks[k + 1]),
        k + 1 == toks.len() ==> word_after(toks, flag, 0) is None,
{
    lemma_word_after(toks, flag, k, 0);
}

proof fn lemma_word_after(toks: Seq<Seq<char>>, flag: Seq<char>, k: int, i: int)
    requires
        0 <= i <= k < toks.len(),
        toks[k] == flag,
        forall|j: int| 0 <= j < k ==> #[trigger] toks[j] != flag,
    ensures
        k + 1 < toks.len() ==> word_after(toks, flag, i) == Some(toks[k + 1]),
        k + 1 == toks.len() ==> word_after(toks, flag, i) is None,
    decreases k - i,
{
    if i < k {
        assert(toks[i] != flag);
        lemma_word_after(toks, flag, k, i + 1);
    }
}

/// A proxy publishes the port of a container with one of the addresses: where it is one
/// for that port, the port of the host that it gives, and for any other nothing.
pub proof fn a_proxy_publishes_one_port(
    line: Seq<char>,
    addresses: Seq<Seq<char>>,
    port: u16,
    ip: Seq<char>,
    inner: u16,
    outer: u16,
)
    requires
        ({
            let toks = text::words(line);
            &&& toks.len() > 0
            &&& word_after(toks, "-container-ip"@, 0) == Some(ip)
            &&& word_after(toks, "-container-port"@, 0) == Some(text::decimal(inner as nat))
            &&& word_after(toks, "-host-port"@, 0) == Some(text::decimal(outer as nat))
        }),
    ensures
        ({
            let program = text::words(line)[0];
            let name = if path::file_name(program) is Some {
                path::file_name(program)->0
            } else {
                program
            };
            published_by(line, addresses, port) == if name == "docker-proxy"@ && addresses.contains(
                ip,
            ) && inner == port {
                Some(outer as nat)
            } else {
                None
            }
        }),
{
    lemma_number(inner as nat, 0xffff);
    lemma_number(outer as nat, 0xffff);
}

/// Of several lines the first counts that publishes the port.
pub proof fn the_first_published_port_counts(
    lines: Seq<Seq<char>>,
    addresses: Seq<Seq<char>>,
    port: u16,
    k: int,
)
    requires
        0 <= k <= lines.len(),
        forall|j: int| 0 <= j < k ==> published_by(#[trigger] lines[j], addresses, port) is None,
        k < lines.len() ==> published_by(lines[k], addresses, port) is Some,
    ensures
        first_published(lines, addresses, port, 0) == if k < lines.len() {
            published_by(lines[k], addresses, port)
        } else {
            None
        },
{
    lemma_published(lines, addresses, port, k, 0);
}

proof fn lemma_published(
    lines: Seq<Seq<char>>,
    addresses: Seq<Seq<char>>,
    port: u16,
    k: int,
    i: int,
)
    requires
        0 <= i <= k <= lines.len(),
        forall|j: int| 0 <= j < k ==> published_by(#[trigger] lines[j], addresses, port) is None,
        k < lines.len() ==> published_by(lines[k], addresses, port) is Some,
    ensures
        first_published(lines, addresses, port, i) == if k < lines.len() {
            published_by(lines[k], addresses, port)
        } else {
            None
        },
    decreases k - i,
{
    if i < k {
        assert(published_by(lines[i], addresses, port) is None);
        lemma_published(lines, addresses, port, k, i + 1);
    }
}

/// A path-shaped word behind `serve` or `api-server` is the path of the model, and its
/// stem the name, where no option says otherwise.
pub proof fn the_served_path_counts(program: Seq<char>, sub: Seq<char>, v: Seq<char>)
    requires
        program.len() > 0 && program[0] != '-',
        v.len() > 0 && v[0] != '-',
        text::has_part(v, "/"@),
        sub == "serve"@ || sub == "api-server"@,
        v != "serve"@ && v != "api-server"@,
    ensures
        told(seq![program, sub, v]).path == Some(v),
        told(seq![program, sub, v]).name == if path::file_stem(v) is Some {
            path::file_stem(v)->0
        } else {
            v
        },
        told(seq![program, sub]).path is None,
{
    let toks = seq![program, sub, v];
    let two = seq![program, sub];
    lemma_no_option(program);
    lemma_no_option(v);
    reveal_strlit("serve");
    reveal_strlit("api-server");
    lemma_no_option(sub);
    reveal_with_fuel(described_from, 4);
    reveal_with_fuel(positional_from, 4);
    let d = described_from(toks, 0, nothing_described());
    assert(d == nothing_described());
    assert(described_from(two, 0, nothing_described()) == nothing_described());
}

/// What does not start with a dash is no option.
proof fn lemma_no_option(w: Seq<char>)
    requires
        w.len() > 0,
        w[0] != '-',
    ensures
        option_named(crate::model_detect::key_of(w)) is None,
{
    reveal_strlit("=");
    reveal_strlit("--model");
    reveal_strlit("-m");
    reveal_strlit("--model-path");
    reveal_strlit("--alias");
    reveal_strlit("--port");
    reveal_strlit("--ctx-size");
    reveal_strlit("--ctx_size");
    reveal_strlit("-c");
    reveal_strlit("--spec-type");
    reveal_strlit("--spec_type");
    reveal_strlit("--n-gpu-layers");
    reveal_strlit("-ngl");
    reveal_strlit("--tensor-split");
    reveal_strlit("--tensor_split");
    let key = crate::model_detect::key_of(w);
    if key.len() > 0 {
        lemma_before_is_front(w, "="@);
        assert(key[0] == w[0]);
    }
    assert("--model"@[0] == '-' && "-m"@[0] == '-' && "--model-path"@[0] == '-' && "--alias"@[0]
        == '-' && "--port"@[0] == '-' && "--ctx-size"@[0] == '-' && "--ctx_size"@[0] == '-' && "-c"@[0]
        == '-' && "--spec-type"@[0] == '-' && "--spec_type"@[0] == '-' && "--n-gpu-layers"@[0]
        == '-' && "-ngl"@[0] == '-' && "--tensor-split"@[0] == '-' && "--tensor_split"@[0] == '-');
}

proof fn lemma_before_is_front(s: Seq<char>, p: Seq<char>)
    requires
        p.len() > 0,
    ensures
        text::before(s, p).len() <= s.len(),
        text::before(s, p) == s.take(text::before(s, p).len() as int),
{
    if text::has_part(s, p) {
        let i = choose|i: int| text::has_at(s, p, i);
        lemma_first_at_most(s, p, 0, i);
    } else {
        assert(s.take(s.len() as int) =~= s);
    }
}

proof fn lemma_first_at_most(s: Seq<char>, p: Seq<char>, from: int, i: int)
    requires
        0 <= from <= i,
        text::has_at(s, p, i),
    ensures
        from <= text::first_at(s, p, from) <= i,
    decreases i - from,
{
    if from < i && !text::has_at(s, p, from) {
        lemma_first_at_most(s, p, from + 1, i);
    }
}

/// The proportions in two lists with a comma between them are those of the one and then
/// those of the other; one number alone is one proportion.
pub proof fn proportions_follow_one_another(a: Seq<char>, b: Seq<char>)
    ensures
        proportions(a.push(',') + b) == proportions(a) + proportions(b),
        (forall|i: int| 0 <= i < a.len() ==> #[trigger] a[i] != ',') ==> proportions(a) == (
        match crate::decimal::number(text::trimmed(a)) {
            Some(x) => seq![x],
            None => Seq::empty(),
        }),
{
    text::pieces_of_two_texts(a, ',', b);
    let x = text::split_on(a, ',');
    let y = text::split_on(b, ',');
    lemma_numbers_front(x, y, x.len() as int);
    lemma_numbers_back(x, y, y.len() as int);
    if forall|i: int| 0 <= i < a.len() ==> #[trigger] a[i] != ',' {
        text::a_text_without_it_is_one_piece(a, ',');
        assert(crate::model_detect::numbers_in(x, 0) =~= Seq::empty());
        assert(x[0] == a);
        reveal_with_fuel(crate::model_detect::numbers_in, 2);
        if crate::decimal::number(text::trimmed(a)) is Some {
            assert(proportions(a) =~= seq![crate::decimal::number(text::trimmed(a))->0]);
        }
    }
}

proof fn lemma_numbers_front(x: Seq<Seq<char>>, y: Seq<Seq<char>>, n: int)
    requires
        0 <= n <= x.len(),
    ensures
        crate::model_detect::numbers_in(x + y, n) == crate::model_detect::numbers_in(x, n),
    decreases n,
{
    if n > 0 {
        lemma_numbers_front(x, y, n - 1);
        assert((x + y)[n - 1] == x[n - 1]);
    }
}

proof fn lemma_numbers_back(x: Seq<Seq<char>>, y: Seq<Seq<char>>, n: int)
    requires
        0 <= n <= y.len(),
    ensures
        crate::model_detect::numbers_in(x + y, x.len() + n) == crate::model_detect::numbers_in(
            x,
            x.len() as int,
        ) + crate::model_detect::numbers_in(y, n),
    decreases n,
{
    let front = crate::model_detect::numbers_in(x, x.len() as int);
    if n > 0 {
        lemma_numbers_back(x, y, n - 1);
        assert((x + y)[x.len() + n - 1] == y[n - 1]);
        let before = crate::model_detect::numbers_in(y, n - 1);
        if let Some(v) = crate::decimal::number(text::trimmed(y[n - 1])) {
            assert((front + before).push(v) =~= front + before.push(v));
        }
    } else {
        lemma_numbers_front(x, y, x.len() as int);
        assert(front + Seq::empty() =~= front);
    }
}

/// A server in a container is reached at the port that is published for its own, or for
/// 8000 where it names none; where none is published, at its own.
pub proof fn containers_are_reached_where_they_are_published(
    own: Option<u16>,
    lines: Seq<Seq<char>>,
    addresses: Seq<Seq<char>>,
    k: int,
    outer: u16,
)
    ensures
        ({
            let port = if own is Some {
                own->0
            } else {
                8000
            };
            let at = crate::model_detect::reached_at(own, lines, addresses);
            &&& (forall|j: int|
                0 <= j < lines.len() ==> published_by(#[trigger] lines[j], addresses, port) is None)
                ==> at == own
            &&& 0 <= k < lines.len() && published_by(lines[k], addresses, port) == Some(
                outer as nat,
            ) && (forall|j: int|
                0 <= j < k ==> published_by(#[trigger] lines[j], addresses, port) is None) ==> at
                == Some(outer)
        }),
{
    let port = if own is Some {
        own->0
    } else {
        8000
    };
    if forall|j: int|
        0 <= j < lines.len() ==> published_by(#[trigger] lines[j], addresses, port) is None {
        the_first_published_port_counts(lines, addresses, port, lines.len() as int);
    }
    if 0 <= k < lines.len() && published_by(lines[k], addresses, port) == Some(outer as nat) && (
    forall|j: int| 0 <= j < k ==> published_by(#[trigger] lines[j], addresses, port) is None) {
        the_first_published_port_counts(lines, addresses, port, k);
    }
}

} // verus!
