//! In what order detected servers are shown, and under what names.
use crate::model_detect::{after_slash, app_row, gpu_index_of, interpreter, is_noise, model_argument};
use crate::model_detect::{model_ref, names_model, ranked, ranking_orders_and_hides, runs_interpreter};
use crate::model_detect::{settles, shortened, uuid_row, without_noise, App, DetectedModel, ModelFiles};
use crate::text;
use vstd::prelude::*;

verus! {

/// An engine that serves a model as soon as it runs.
pub open spec fn serves(engine: Seq<char>) -> bool {
    engine == "llama.cpp"@ || engine == "vllm"@ || engine == "sglang"@ || engine == "exllamav2"@
}

/// A server of which the model is known.
pub open spec fn has_model(m: DetectedModel) -> bool {
    m.path is Some || m.gguf is Some
}

/// Nothing is loaded: no memory, no path, no header.
pub open spec fn is_bare(m: DetectedModel) -> bool {
    m.mem_used_mb == 0 && m.path is None && m.gguf is None
}

/// The server that uses more memory of the cards comes first; with equal memory one of
/// which the model is known; then one whose engine serves at once before any other, and
/// ollama last. What has nothing loaded is left out where something else runs, and nothing
/// else is.
pub proof fn the_largest_server_comes_first(models: Seq<DetectedModel>)
    ensures
        ({
            let list = ranked(models);
            &&& forall|i: int, j: int|
                0 <= i < j < list.len() ==> {
                    let a = #[trigger] list[i];
                    let b = #[trigger] list[j];
                    &&& a.mem_used_mb >= b.mem_used_mb
                    &&& a.mem_used_mb == b.mem_used_mb && has_model(b) ==> has_model(a)
                    &&& a.mem_used_mb == b.mem_used_mb && has_model(a) == has_model(b) ==> (serves(
                        b.engine@,
                    ) ==> serves(a.engine@)) && (a.engine@ == "ollama"@ ==> b.engine@
                        == "ollama"@)
                }
            &&& (exists|i: int| 0 <= i < models.len() && !is_bare(#[trigger] models[i]))
                ==> forall|i: int| 0 <= i < list.len() ==> !is_bare(#[trigger] list[i])
            &&& forall|i: int|
                0 <= i < models.len() && !is_bare(#[trigger] models[i]) ==> list.contains(
                    models[i],
                )
            &&& forall|i: int| 0 <= i < list.len() ==> models.contains(#[trigger] list[i])
        }),
{
    ranking_orders_and_hides(models);
    let list = ranked(models);
    lemma_engine_literals();
    assert(forall|m: DetectedModel| #[trigger] m.idle() == is_bare(m));
    assert forall|i: int, j: int| 0 <= i < j < list.len() implies ({
        let a = #[trigger] list[i];
        let b = #[trigger] list[j];
        &&& a.mem_used_mb >= b.mem_used_mb
        &&& a.mem_used_mb == b.mem_used_mb && has_model(b) ==> has_model(a)
        &&& a.mem_used_mb == b.mem_used_mb && has_model(a) == has_model(b) ==> (serves(b.engine@)
            ==> serves(a.engine@)) && (a.engine@ == "ollama"@ ==> b.engine@ == "ollama"@)
    }) by {
        assert(crate::model_detect::rank(list[i]) >= crate::model_detect::rank(list[j]));
    }
}

proof fn lemma_engine_literals()
    ensures
        !serves("ollama"@),
{
    reveal_strlit("ollama");
    reveal_strlit("llama.cpp");
    reveal_strlit("vllm");
    reveal_strlit("sglang");
    reveal_strlit("exllamav2");
    assert("ollama"@.len() == 6 && "llama.cpp"@.len() == 9 && "vllm"@.len() == 4 && "sglang"@.len()
        == 6 && "exllamav2"@.len() == 9);
    assert("ollama"@[0] == 'o' && "sglang"@[0] == 's');
}

/// A server that is settled is the same server. It takes over the header that was read,
/// and the name in it only where its own says nothing: where that is empty, in brackets,
/// or the program's.
pub proof fn a_settled_server_is_the_same(m: DetectedModel, files: ModelFiles, out: DetectedModel)
    requires
        settles(m, files, out),
    ensures
        out.pid == m.pid,
        out.mem_used_mb == m.mem_used_mb,
        out.port == m.port,
        out.ctx_max == m.ctx_max,
        out.n_gpu_layers == m.n_gpu_layers,
        out.engine@ == m.engine@,
        out.cmdline@ == m.cmdline@,
        out.tensor_split@ == m.tensor_split@,
        out.hf == files.hf,
        files.info is Some ==> out.gguf == files.info && out.tensors == files.tensors,
        files.info is None ==> out.gguf == m.gguf && out.tensors == m.tensors && out.name@
            == m.name@,
        files.info is Some && (m.name@.len() == 0 || m.name@[0] == '[' || m.name@
            == "llama-server"@) ==> out.name@ == files.info->0.name@,
        m.name@.len() > 0 && m.name@[0] != '[' && m.name@ != "llama-server"@ ==> out.name@
            == m.name@,
{
    assert(out@.pid == m@.pid && out@.mem_used_mb == m@.mem_used_mb && out@.engine == m@.engine
        && out@.cmdline == m@.cmdline);
    assert(out@.described.port == m@.described.port && out@.described.ctx_max
        == m@.described.ctx_max && out@.described.n_gpu_layers == m@.described.n_gpu_layers
        && out@.described.tensor_split == m@.described.tensor_split);
    assert(out@.described.name == out.name@);
}

/// A text that neither starts nor ends with white space.
pub open spec fn is_trim(w: Seq<char>) -> bool {
    w.len() > 0 && !text::is_space(w[0]) && !text::is_space(w.last())
}

proof fn lemma_trim(w: Seq<char>)
    requires
        is_trim(w),
    ensures
        text::trimmed(w) == w,
        text::trimmed(seq![' '] + w) == w,
{
    assert(text::trim_start(w) == w);
    assert(text::trim_end(w) == w);
    let s = seq![' '] + w;
    assert(s.drop_first() =~= w);
    assert(text::trim_start(s) == text::trim_start(w));
}

proof fn lemma_decimal_trim(n: nat)
    ensures
        is_trim(text::decimal(n)),
        forall|i: int| 0 <= i < text::decimal(n).len() ==> #[trigger] text::decimal(n)[i] != ',',
        forall|max: nat| n <= max ==> #[trigger] text::unsigned(text::decimal(n), max) == Some(n),
{
    text::lemma_decimal_reads_back(n);
    let w = text::decimal(n);
    assert(text::is_digit(w[0]));
    assert(text::is_digit(w[w.len() - 1]));
    assert forall|i: int| 0 <= i < w.len() implies #[trigger] w[i] != ',' by {
        assert(text::is_digit(w[i]));
    }
}

/// No comma stands in a text.
pub open spec fn one_cell(w: Seq<char>) -> bool {
    forall|i: int| 0 <= i < w.len() ==> #[trigger] w[i] != ','
}

/// The line that tells of a compute process: the card, the id of the process, its name
/// and the memory that it uses.
pub open spec fn process_line(uuid: Seq<char>, pid: u32, name: Seq<char>, mem: u64) -> Seq<char> {
    uuid + ", "@ + text::decimal(pid as nat) + ", "@ + name + ", "@ + text::decimal(mem as nat)
}

proof fn lemma_two_cells(a: Seq<char>, rest: Seq<char>)
    requires
        one_cell(a),
    ensures
        text::split_on(a + ", "@ + rest, ',') == seq![a] + text::split_on(seq![' '] + rest, ','),
{
    reveal_strlit(", ");
    assert(a + ", "@ + rest =~= a.push(',') + (seq![' '] + rest));
    text::pieces_of_two_texts(a, ',', seq![' '] + rest);
    text::a_text_without_it_is_one_piece(a, ',');
}

/// A line that tells of a compute process reads as what it tells: the process, its name,
/// its memory and the card with that identity.
pub proof fn process_lines_read_back(
    uuid: Seq<char>,
    pid: u32,
    name: Seq<char>,
    mem: u64,
    gpus: Seq<(Seq<char>, u32)>,
)
    requires
        is_trim(uuid),
        one_cell(uuid),
        is_trim(name),
        one_cell(name),
    ensures
        app_row(process_line(uuid, pid, name, mem), gpus) == Some(
            App {
                pid,
                process_name: name,
                gpu_index: gpu_index_of(gpus, uuid),
                mem_used_mb: mem,
            },
        ),
{
    let p = text::decimal(pid as nat);
    let m = text::decimal(mem as nat);
    let line = process_line(uuid, pid, name, mem);
    lemma_decimal_trim(pid as nat);
    lemma_decimal_trim(mem as nat);
    assert(line.last() == m.last());
    assert(line[0] == uuid[0]);
    lemma_trim(line);
    let sp = seq![' '];
    let c1 = sp + p;
    let c2 = sp + name;
    let c3 = sp + m;
    let rest3 = m;
    let rest2 = name + ", "@ + m;
    let rest1 = p + ", "@ + rest2;
    assert(line =~= uuid + ", "@ + rest1);
    lemma_two_cells(uuid, rest1);
    assert(sp + rest1 =~= c1 + ", "@ + rest2);
    assert(one_cell(c1)) by {
        assert forall|i: int| 0 <= i < c1.len() implies #[trigger] c1[i] != ',' by {
            if i > 0 {
                assert(c1[i] == p[i - 1]);
            }
        }
    }
    lemma_two_cells(c1, rest2);
    assert(sp + rest2 =~= c2 + ", "@ + rest3);
    assert(one_cell(c2)) by {
        assert forall|i: int| 0 <= i < c2.len() implies #[trigger] c2[i] != ',' by {
            if i > 0 {
                assert(c2[i] == name[i - 1]);
            }
        }
    }
    lemma_two_cells(c2, rest3);
    assert(one_cell(c3)) by {
        assert forall|i: int| 0 <= i < c3.len() implies #[trigger] c3[i] != ',' by {
            if i > 0 {
                assert(c3[i] == m[i - 1]);
            }
        }
    }
    text::a_text_without_it_is_one_piece(c3, ',');
    let cells = text::split_on(line, ',');
    assert(cells =~= seq![uuid, c1, c2, c3]);
    lemma_trim(uuid);
    lemma_trim(p);
    lemma_trim(name);
    lemma_trim(m);
}

/// The line that tells of a card: its index and its identity.
pub proof fn card_lines_read_back(index: u32, uuid: Seq<char>)
    requires
        is_trim(uuid),
        one_cell(uuid),
    ensures
        uuid_row(text::decimal(index as nat) + ", "@ + uuid) == Some((uuid, index)),
{
    let n = text::decimal(index as nat);
    lemma_decimal_trim(index as nat);
    let c1 = seq![' '] + uuid;
    lemma_two_cells(n, uuid);
    assert(one_cell(c1)) by {
        assert forall|i: int| 0 <= i < c1.len() implies #[trigger] c1[i] != ',' by {
            if i > 0 {
                assert(c1[i] == uuid[i - 1]);
            }
        }
    }
    text::a_text_without_it_is_one_piece(c1, ',');
    assert(text::split_on(n + ", "@ + uuid, ',') =~= seq![n, c1]);
    lemma_trim(n);
    lemma_trim(uuid);
}

/// A card's index is that of its row; of several the last counts, and a card without one
/// counts as the first.
pub proof fn a_card_has_the_index_of_its_row(rows: Seq<(Seq<char>, u32)>, uuid: Seq<char>, k: int)
    requires
        0 <= k < rows.len(),
        rows[k].0 == uuid,
        forall|j: int| k < j < rows.len() ==> (#[trigger] rows[j]).0 != uuid,
    ensures
        gpu_index_of(rows, uuid) == rows[k].1,
    decreases rows.len(),
{
    if k < rows.len() - 1 {
        assert(rows[rows.len() - 1].0 != uuid);
        a_card_has_the_index_of_its_row(rows.drop_last(), uuid, k);
    }
}

/// The name without what stands behind it, where that is one more piece.
pub proof fn tags_are_dropped(parts: Seq<Seq<char>>, tag: Seq<char>)
    requires
        parts.len() > 0,
    ensures
        ({
            let shout = tag.map_values(|c: char| text::upper(c));
            let is_tag = shout == "UD"@ || shout == "GGUF"@ || shout == "K"@ || shout == "XL"@
                || shout == "M"@ || shout == "S"@ || shout == "L"@ || shout == "0"@ || shout == "1"@
                || (shout.len() > 0 && shout[0] == 'Q' && exists|i: int|
                0 <= i < shout.len() && '0' <= #[trigger] shout[i] <= '9');
            &&& is_tag ==> without_noise(parts.push(tag)) == without_noise(parts)
            &&& !is_tag ==> without_noise(parts.push(tag)) == parts.push(tag)
            &&& without_noise(seq![tag]) == seq![tag]
        }),
{
    let shout = tag.map_values(|c: char| text::upper(c));
    assert(parts.push(tag).drop_last() =~= parts);
    if shout.len() > 0 && shout[0] == 'Q' && exists|i: int|
        0 <= i < shout.len() && '0' <= #[trigger] shout[i] <= '9' {
        let i = choose|i: int| 0 <= i < shout.len() && '0' <= #[trigger] shout[i] <= '9';
        assert(text::is_digit(shout[i]));
    }
    if exists|i: int| 0 <= i < shout.len() && text::is_digit(#[trigger] shout[i]) {
        let i = choose|i: int| 0 <= i < shout.len() && text::is_digit(#[trigger] shout[i]);
        assert('0' <= shout[i] <= '9');
    }
}

/// The pieces of a text, joined again, make up the text.
pub proof fn joined_pieces_make_up_the_text(s: Seq<char>, c: char)
    ensures
        text::joined(text::split_on(s, c), seq![c]) == s,
        text::split_on(s, c).len() > 0,
    decreases s.len(),
{
    let pieces = text::split_on(s, c);
    if s.len() == 0 {
        assert(text::joined(pieces, seq![c]) =~= s);
    } else {
        let front = s.drop_last();
        joined_pieces_make_up_the_text(front, c);
        let before = text::split_on(front, c);
        if s.last() == c {
            assert(pieces =~= before.push(Seq::empty()));
            assert(pieces.drop_last() =~= before);
            assert(text::joined(pieces, seq![c]) =~= s);
        } else {
            let n = before.len() - 1;
            assert(pieces =~= before.update(n, before[n].push(s.last())));
            assert(pieces.drop_last() =~= before.drop_last());
            assert(s =~= front.push(s.last()));
            if n == 0 {
                assert(text::joined(before, seq![c]) == before[0]);
                assert(text::joined(pieces, seq![c]) == pieces[0]);
            } else {
                let head = text::joined(before.drop_last(), seq![c]) + seq![c];
                assert(text::joined(before, seq![c]) == head + before.last());
                assert(text::joined(pieces, seq![c]) == head + before.last().push(s.last()));
                assert(head + before.last().push(s.last()) =~= (head + before.last()).push(
                    s.last(),
                ));
            }
        }
    }
}

/// The short form of a name without white space: what follows the last slash, without
/// the tags at its end. A name that ends in no tag stays, and a directory before it makes
/// no difference.
pub proof fn short_names_drop_directories_and_tags(dir: Seq<char>, name: Seq<char>)
    requires
        text::is_word(name),
        forall|i: int| 0 <= i < dir.len() ==> !text::is_space(#[trigger] dir[i]),
        forall|i: int| 0 <= i < name.len() ==> #[trigger] name[i] != '/',
        !text::has_prefix(name, "models--"@),
        !text::has_prefix(dir.push('/') + name, "models--"@),
    ensures
        shortened(name) == text::joined(without_noise(text::split_on(name, '-')), "-"@),
        shortened(dir.push('/') + name) == shortened(name),
        !is_noise(
            text::split_on(name, '-').last().map_values(|c: char| text::upper(c)),
        ) ==> shortened(name) == name,
{
    reveal_strlit("-");
    assert("-"@ =~= seq!['-']);
    let all = dir.push('/') + name;
    lemma_trim(name);
    assert(all[0] == if dir.len() > 0 {
        dir[0]
    } else {
        '/'
    });
    assert(all.last() == name.last());
    lemma_trim(all);
    text::a_text_without_it_is_one_piece(name, '/');
    text::pieces_of_two_texts(dir, '/', name);
    assert(after_slash(all) == name);
    assert(after_slash(name) == name);
    joined_pieces_make_up_the_text(name, '-');
}

/// What `models--` stands before is shortened as if it stood alone.
pub proof fn the_hub_prefix_is_dropped(name: Seq<char>)
    requires
        text::is_word(name),
        !text::has_prefix(name, "models--"@),
    ensures
        shortened("models--"@ + name) == shortened(name),
{
    reveal_strlit("models--");
    let all = "models--"@ + name;
    lemma_trim(name);
    assert(all[0] == 'm');
    assert(all.last() == name.last());
    lemma_trim(all);
    assert(all.subrange(0, 8) =~= "models--"@);
    assert(all.skip(8) =~= name);
}

/// The names of interpreters, but for those that start with `python`.
pub open spec fn interpreters() -> Seq<Seq<char>> {
    seq![
        "gjs"@,
        "node"@,
        "nodejs"@,
        "ruby"@,
        "perl"@,
        "bash"@,
        "sh"@,
        "zsh"@,
        "java"@,
        "dotnet"@,
        "uv"@,
        "uvx"@,
    ]
}

/// A program that starts with `python` is an interpreter, and so is one of those of a
/// known name; others are not. Endings in `.exe` make no difference.
pub proof fn interpreters_are_known_by_name(name: Seq<char>)
    ensures
        ({
            let base = text::strip_all_suffix(name, ".exe"@);
            interpreter(name) <==> text::has_prefix(base, "python"@) || interpreters().contains(
                base,
            )
        }),
{
    let w = interpreters();
    let base = text::strip_all_suffix(name, ".exe"@);
    assert(w[0] == "gjs"@ && w[1] == "node"@ && w[2] == "nodejs"@ && w[3] == "ruby"@ && w[4]
        == "perl"@ && w[5] == "bash"@ && w[6] == "sh"@ && w[7] == "zsh"@ && w[8] == "java"@ && w[9]
        == "dotnet"@ && w[10] == "uv"@ && w[11] == "uvx"@);
    assert(w.len() == 12);
    if w.contains(base) {
        let i = choose|i: int| 0 <= i < w.len() && w[i] == base;
    }
}

/// A model is named by the word after `--model`, `--model-path` or, where the program is
/// no interpreter, `-m`.
pub proof fn models_are_named_behind_their_flags(cmdline: Seq<char>, dirs: Seq<Seq<char>>, i: int)
    requires
        0 <= i,
        i + 1 < text::words(cmdline).len(),
        model_ref(
            text::words(cmdline)[i + 1],
            text::lowered(text::words(cmdline)[i + 1]),
            dirs,
        ),
    ensures
        text::words(cmdline)[i] == "--model"@ ==> names_model(cmdline, dirs),
        text::words(cmdline)[i] == "--model-path"@ ==> names_model(cmdline, dirs),
        text::words(cmdline)[i] == "-m"@ && !runs_interpreter(text::words(cmdline)) ==> names_model(
            cmdline,
            dirs,
        ),
{
    let toks = text::words(cmdline);
    let t = toks[i];
    if t == "--model"@ || t == "--model-path"@ || t == "-m"@ {
        reveal_strlit("--model");
        reveal_strlit("--model-path");
        reveal_strlit("-m");
        reveal_strlit("--model=");
        reveal_strlit("--model-path=");
        if text::has_prefix(t, "--model="@) {
            assert(t.subrange(0, 8)[7] == '=');
            assert(t[7] == '=');
        }
        if text::has_prefix(t, "--model-path="@) {
            assert(t.len() >= 13);
        }
        if t != "-m"@ || !runs_interpreter(toks) {
            assert(model_argument(toks, i, runs_interpreter(toks)) == Some(toks[i + 1]));
        }
    }
}

/// A command line without a model flag names no model; and `-m` is none behind an
/// interpreter.
pub proof fn no_flag_names_no_model(cmdline: Seq<char>, dirs: Seq<Seq<char>>)
    requires
        forall|i: int|
            0 <= i < text::words(cmdline).len() ==> {
                let t = #[trigger] text::words(cmdline)[i];
                &&& t != "--model"@ && t != "--model-path"@
                &&& !text::has_prefix(t, "--model="@) && !text::has_prefix(t, "--model-path="@)
                &&& t == "-m"@ ==> runs_interpreter(text::words(cmdline))
            },
    ensures
        !names_model(cmdline, dirs),
{
    let toks = text::words(cmdline);
    assert forall|i: int| 0 <= i < toks.len() implies (#[trigger] model_argument(
        toks,
        i,
        runs_interpreter(toks),
    )) is None by {
        assert(toks[i] != "--model"@);
    }
}

/// A model is also named by what stands behind `--model=` or `--model-path=` in one word.
pub proof fn models_are_named_in_one_word(
    cmdline: Seq<char>,
    dirs: Seq<Seq<char>>,
    i: int,
    v: Seq<char>,
)
    requires
        0 <= i < text::words(cmdline).len(),
        model_ref(v, text::lowered(v), dirs),
    ensures
        text::words(cmdline)[i] == "--model="@ + v ==> names_model(cmdline, dirs),
        text::words(cmdline)[i] == "--model-path="@ + v ==> names_model(cmdline, dirs),
{
    let toks = text::words(cmdline);
    let t = toks[i];
    reveal_strlit("--model=");
    reveal_strlit("--model-path=");
    if t == "--model="@ + v {
        assert(t.subrange(0, 8) =~= "--model="@);
        assert(t.skip(8) =~= v);
        assert(model_argument(toks, i, runs_interpreter(toks)) == Some(v));
    }
    if t == "--model-path="@ + v {
        assert(t.subrange(0, 13) =~= "--model-path="@);
        assert(t.skip(13) =~= v);
        if text::has_prefix(t, "--model="@) {
            assert(t.subrange(0, 8)[7] == '=');
            assert(t[7] == '-');
        }
        assert(model_argument(toks, i, runs_interpreter(toks)) == Some(v));
    }
}

/// The line that shows a server names it, its process, its engine, its cards and its
/// memory, in this order; the cards are not known where there are none.
pub proof fn a_server_is_shown_with_its_process(m: crate::model_detect::Model)
    ensures
        m.gpu_indices.len() == 0 ==> crate::model_detect::shown(m) == m.described.name
            + " (PID "@ + text::decimal(m.pid as nat) + " · "@ + m.engine + " · GPU "@ + "?"@
            + " · "@ + text::decimal(m.mem_used_mb as nat) + " MB)"@,
        m.gpu_indices.len() == 1 ==> crate::model_detect::shown(m) == m.described.name
            + " (PID "@ + text::decimal(m.pid as nat) + " · "@ + m.engine + " · GPU "@
            + text::decimal(m.gpu_indices[0] as nat) + " · "@ + text::decimal(
            m.mem_used_mb as nat,
        ) + " MB)"@,
        m.gpu_indices.len() == 2 ==> crate::model_detect::shown(m) == m.described.name
            + " (PID "@ + text::decimal(m.pid as nat) + " · "@ + m.engine + " · GPU "@ + (
        text::decimal(m.gpu_indices[0] as nat) + ","@ + text::decimal(m.gpu_indices[1] as nat))
            + " · "@ + text::decimal(m.mem_used_mb as nat) + " MB)"@,
{
    let cards = m.gpu_indices.map_values(|g: u32| text::decimal(g as nat));
    if cards.len() == 2 {
        let one = cards.drop_last();
        assert(one.len() == 1 && one[0] == cards[0]);
        assert(text::joined(one, ","@) == cards[0]);
        assert(text::joined(cards, ","@) == cards[0] + ","@ + cards[1]);
    }
}

/// The program of a command line is its first word: it decides, by its file name in lower
/// case, whether an interpreter runs.
pub proof fn the_first_word_is_the_program(toks: Seq<Seq<char>>, program: Seq<char>)
    ensures
        toks.len() == 0 ==> !runs_interpreter(toks),
        toks.len() > 0 && toks[0] == program ==> {
            let name = if crate::path::file_name(program) is Some {
                crate::path::file_name(program)->0
            } else {
                program
            };
            runs_interpreter(toks) <==> interpreter(text::lowered(name))
        },
{
}

/// Every server is settled with its own files, and none is left out or added.
pub proof fn every_server_is_settled_with_its_own_files(
    models: Seq<DetectedModel>,
    files: Seq<ModelFiles>,
    out: Seq<DetectedModel>,
)
    requires
        crate::model_detect::all_settle(models, files, out),
    ensures
        out.len() == models.len(),
        forall|i: int|
            0 <= i < models.len() ==> (#[trigger] out[i]).pid == models[i].pid
                && out[i].mem_used_mb == models[i].mem_used_mb && out[i].hf == files[i].hf && (
            files[i].info is Some ==> out[i].gguf == files[i].info),
{
    assert forall|i: int| 0 <= i < models.len() implies (#[trigger] out[i]).pid == models[i].pid
        && out[i].mem_used_mb == models[i].mem_used_mb && out[i].hf == files[i].hf && (
    files[i].info is Some ==> out[i].gguf == files[i].info) by {
        assert(settles(models[i], files[i], out[i]));
        a_settled_server_is_the_same(models[i], files[i], out[i]);
    }
}

} // verus!
