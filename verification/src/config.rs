//! What the user asks for on the command line.
use crate::micro;
use crate::text;
use vstd::prelude::*;

verus! {

#[derive(Clone, Copy, Debug, PartialEq, Eq, Structural)]
pub enum ViewMode {
    /// Everything on one screen.
    All,
    /// Throughput, GPUs and request log, enlarged.
    Perf,
    /// Layer tiles zoom.
    Heatmap,
    /// MoE expert map zoom.
    MoE,
}

impl Default for ViewMode {
    fn default() -> (r: ViewMode)
        ensures
            r == ViewMode::All,
    {
        ViewMode::All
    }
}

impl ViewMode {
    pub open spec fn name(self) -> Seq<char> {
        match self {
            ViewMode::All => "dashboard"@,
            ViewMode::Perf => "perf"@,
            ViewMode::Heatmap => "layers"@,
            ViewMode::MoE => "moe"@,
        }
    }

    /// The view's name on the screen.
    pub fn label(self) -> (r: String)
        ensures
            r@ == self.name(),
    {
        match self {
            ViewMode::All => "dashboard".to_owned(),
            ViewMode::Perf => "perf".to_owned(),
            ViewMode::Heatmap => "layers".to_owned(),
            ViewMode::MoE => "moe".to_owned(),
        }
    }
}

/// Real-time terminal dashboard for a locally running LLM
#[derive(Clone, Debug)]
pub struct Args {
    /// HuggingFace model id or local path. Default `auto` observes the running LLM.
    pub model: String,
    /// Prompt to generate from
    pub prompt: String,
    /// Max tokens to generate
    pub max_tokens: usize,
    /// Color theme: defrag, neon, fire, ocean, monochrome
    pub theme: String,
    /// Colour depth: auto, truecolor, 256
    pub color: String,
    /// Sliding window of token columns to keep on screen
    pub window: usize,
    /// Max layers to display (0 = all)
    pub max_layers: usize,
    /// Max heads per layer to display (0 = all)
    pub max_heads: usize,
    /// Path to python_bridge.py (defaults to beside the binary / src/llm/)
    pub bridge: Option<String>,
    /// Run a synthetic demo without a model or GPU
    pub demo: bool,
    /// Demo: number of layers
    pub demo_layers: usize,
    /// Demo: number of heads
    pub demo_heads: usize,
    /// Auto-detect the currently running LLM model on the machine
    pub detect_auto: bool,
    /// GPU index to monitor (comma-separated, e.g. "0,1")
    pub gpu: String,
    /// Number of MoE experts per layer (for demo)
    pub moe_experts: usize,
    /// Poll interval for the inference server and nvidia-smi, in ms
    pub poll_ms: u64,
}

/// A path below a directory.
pub open spec fn below(dir: Seq<char>, rest: Seq<char>) -> Seq<char> {
    if dir.len() == 0 {
        rest
    } else if dir.last() == '/' {
        dir + rest
    } else {
        dir + "/"@ + rest
    }
}

/// The numbers among the first `n` pieces of a list.
pub open spec fn indices_in(pieces: Seq<Seq<char>>, n: int) -> Seq<usize>
    decreases n,
{
    if n <= 0 {
        Seq::empty()
    } else {
        match text::unsigned(text::trimmed(pieces[n - 1]), usize::MAX as nat) {
            Some(x) => indices_in(pieces, n - 1).push(x as usize),
            None => indices_in(pieces, n - 1),
        }
    }
}

impl Default for Args {
    fn default() -> (r: Args)
        ensures
            r.model@ == "auto"@,
            r.prompt@ == "Once upon a time"@,
            r.max_tokens == 64,
            r.theme@ == "defrag"@,
            r.color@ == "auto"@,
            r.window == 80,
            r.max_layers == 0,
            r.max_heads == 0,
            r.bridge is None,
            !r.demo,
            r.demo_layers == 12,
            r.demo_heads == 8,
            !r.detect_auto,
            r.gpu@ == "all"@,
            r.moe_experts == 4,
            r.poll_ms == 200,
    {
        Args {
            model: "auto".to_owned(),
            prompt: "Once upon a time".to_owned(),
            max_tokens: 64,
            theme: "defrag".to_owned(),
            color: "auto".to_owned(),
            window: 80,
            max_layers: 0,
            max_heads: 0,
            bridge: None,
            demo: false,
            demo_layers: 12,
            demo_heads: 8,
            detect_auto: false,
            gpu: "all".to_owned(),
            moe_experts: 4,
            poll_ms: 200,
        }
    }
}

impl Args {
    /// The script to run: the one that was asked for, else the first of its usual
    /// places that exists, else the one below the working directory.
    pub open spec fn script(
        self,
        home: Seq<char>,
        program_dir: Seq<char>,
        existing: Seq<Seq<char>>,
    ) -> Seq<char> {
        let local = "src/llm/python_bridge.py"@;
        let installed = below(home, local);
        let beside = below(program_dir, "python_bridge.py"@);
        match self.bridge {
            Some(path) => path@,
            None => if existing.contains(local) {
                local
            } else if existing.contains(installed) {
                installed
            } else if existing.contains(beside) {
                beside
            } else {
                local
            },
        }
    }

    /// The usual places of the script, for a program whose home is `home` and which
    /// itself lies in `program_dir`.
    pub fn bridge_places(home: &str, program_dir: &str) -> (r: Vec<String>)
        ensures
            text::strings(r@) == seq![
                "src/llm/python_bridge.py"@,
                below(home@, "src/llm/python_bridge.py"@),
                below(program_dir@, "python_bridge.py"@),
            ],
    {
        let mut out: Vec<String> = Vec::new();
        out.push("src/llm/python_bridge.py".to_owned());
        out.push(text::string_of(&join(home, "src/llm/python_bridge.py")));
        out.push(text::string_of(&join(program_dir, "python_bridge.py")));
        assert(text::strings(out@) =~= seq![
            "src/llm/python_bridge.py"@,
            below(home@, "src/llm/python_bridge.py"@),
            below(program_dir@, "python_bridge.py"@),
        ]);
        out
    }

    /// The script to run. `existing` lists those of its usual places that exist.
    pub fn bridge_script(&self, home: &str, program_dir: &str, existing: &[String]) -> (r: String)
        ensures
            r@ == self.script(home@, program_dir@, text::strings(existing@)),
    {
        if let Some(path) = &self.bridge {
            return path.clone();
        }
        let local = text::chars_of("src/llm/python_bridge.py");
        if text::is_among(&local, existing) {
            return text::string_of(&local);
        }
        let installed = join(home, "src/llm/python_bridge.py");
        if text::is_among(&installed, existing) {
            return text::string_of(&installed);
        }
        let beside = join(program_dir, "python_bridge.py");
        if text::is_among(&beside, existing) {
            return text::string_of(&beside);
        }
        text::string_of(&local)
    }

    /// Whether to auto-detect the running model (explicit flag or "auto" value)
    pub fn auto_detect(&self) -> (r: bool)
        ensures
            r == (self.detect_auto || self.model@ == "auto"@),
            r == self.detects(),
    {
        self.detect_auto || text::same_str(self.model.as_str(), "auto")
    }

    /// GPU indices to monitor. Empty means all devices.
    pub fn gpu_indices(&self) -> (r: Vec<usize>)
        ensures
            r@ == self.cards(),
            self.gpu@ == "all"@ ==> r@.len() == 0,
            self.gpu@ != "all"@ ==> r@ == indices_in(
                text::split_on(self.gpu@, ','),
                text::split_on(self.gpu@, ',').len() as int,
            ),
    {
        let mut out: Vec<usize> = Vec::new();
        if text::same_str(self.gpu.as_str(), "all") {
            return out;
        }
        let pieces = text::split(&text::chars_of(self.gpu.as_str()), ',');
        let ghost all = text::texts(pieces@);
        let mut i: usize = 0;
        assert(out@ =~= Seq::<usize>::empty());
        while i < pieces.len()
            invariant
                i <= pieces.len(),
                all == text::texts(pieces@),
                out@ == indices_in(all, i as int),
            decreases pieces.len() - i,
        {
            assert(all[i as int] == pieces@[i as int]@);
            if let Some(n) = text::parse_unsigned(&text::trim(&pieces[i]), usize::MAX as u64) {
                out.push(n as usize);
            }
            i += 1;
        }
        out
    }

    /// The time between two polls in nanoseconds; never less than 50 ms.
    pub open spec fn poll_time(self) -> u64 {
        micro::capped(
            (if self.poll_ms > 50 {
                self.poll_ms as int
            } else {
                50
            }) * micro::MILLISECOND,
        )
    }

    /// The indices of the cards to watch; none stand for all.
    pub open spec fn cards(self) -> Seq<usize> {
        if self.gpu@ == "all"@ {
            Seq::empty()
        } else {
            indices_in(
                text::split_on(self.gpu@, ','),
                text::split_on(self.gpu@, ',').len() as int,
            )
        }
    }

    /// The running model is to be looked for.
    pub open spec fn detects(self) -> bool {
        self.detect_auto || self.model@ == "auto"@
    }

    /// The time between two polls in nanoseconds; never less than 50 ms.
    pub fn poll_nanos(&self) -> (r: u64)
        ensures
            r == self.poll_time(),
            r == micro::capped(
                (if self.poll_ms > 50 {
                    self.poll_ms as int
                } else {
                    50
                }) * micro::MILLISECOND,
            ),
    {
        let ms: u64 = micro::max(self.poll_ms, 50);
        micro::cap((ms as u128) * (micro::MILLISECOND as u128))
    }
}

fn join(dir: &str, rest: &str) -> (r: Vec<char>)
    ensures
        r@ == below(dir@, rest@),
{
    let mut out = text::chars_of(dir);
    if out.len() > 0 && out[out.len() - 1] != '/' {
        text::add_str(&mut out, "/");
    }
    text::add_str(&mut out, rest);
    assert(out@ =~= below(dir@, rest@));
    out
}

} // verus!
