//! GPU statistics: the table that `nvidia-smi` prints, and demo cards.
//!
//! Percentages, watts and degrees are kept as they were reported; shares are in
//! millionths.
use crate::decimal;
use crate::float;
use crate::float::Single;
use crate::generator;
use crate::micro;
use crate::order;
use crate::text;
use vstd::prelude::*;

verus! {

/// Statistics for a single GPU
#[derive(Clone, Debug)]
pub struct GpuStats {
    pub index: u32,
    pub name: String,
    /// %
    pub utilization_gpu: Single,
    /// %
    pub utilization_mem: Single,
    pub mem_total_mb: u64,
    pub mem_used_mb: u64,
    pub mem_free_mb: u64,
    pub power_watts: Single,
    pub power_max_watts: Single,
    pub temperature: Option<Single>,
    pub clock_sm_mhz: u32,
    pub clock_sm_max_mhz: u32,
    pub clock_mem_mhz: u32,
    /// %
    pub fan_pct: Option<Single>,
    pub pcie_gen: u32,
    pub pcie_width: u32,
}

impl Default for GpuStats {
    fn default() -> (r: GpuStats)
        ensures
            r.index == 0,
            r.name@ == Seq::<char>::empty(),
            r.utilization_gpu.bits == 0,
            r.utilization_mem.bits == 0,
            r.mem_total_mb == 0,
            r.mem_used_mb == 0,
            r.mem_free_mb == 0,
            r.power_watts.bits == 0,
            r.power_max_watts.bits == 0,
            r.temperature is None,
            r.clock_sm_mhz == 0,
            r.clock_sm_max_mhz == 0,
            r.clock_mem_mhz == 0,
            r.fan_pct is None,
            r.pcie_gen == 0,
            r.pcie_width == 0,
    {
        GpuStats {
            index: 0,
            name: String::new(),
            utilization_gpu: Single::zero(),
            utilization_mem: Single::zero(),
            mem_total_mb: 0,
            mem_used_mb: 0,
            mem_free_mb: 0,
            power_watts: Single::zero(),
            power_max_watts: Single::zero(),
            temperature: None,
            clock_sm_mhz: 0,
            clock_sm_max_mhz: 0,
            clock_mem_mhz: 0,
            fan_pct: None,
            pcie_gen: 0,
            pcie_width: 0,
        }
    }
}

/// The short form of a card's name.
pub open spec fn short_card_name(name: Seq<char>) -> Seq<char> {
    let n = text::strip_all_prefix(name, "NVIDIA "@);
    let n = text::strip_all_prefix(n, "GeForce "@);
    let n = text::strip_all_prefix(n, "Tesla "@);
    text::trimmed(text::before(text::before(n, "-PCIE"@), "-SXM"@))
}

/// The cell of a row, where the row has one with that number.
pub open spec fn cell(parts: Seq<Seq<char>>, i: int) -> Option<Seq<char>> {
    if i < parts.len() {
        Some(text::trimmed(parts[i]))
    } else {
        None
    }
}

/// The reading in a cell, if there is one.
pub open spec fn cell_reading(parts: Seq<Seq<char>>, i: int) -> Option<Single> {
    match cell(parts, i) {
        Some(c) => decimal::number(c),
        None => None,
    }
}

/// The reading in a cell, or 0.
pub open spec fn cell_number(parts: Seq<Seq<char>>, i: int) -> Single {
    match cell_reading(parts, i) {
        Some(n) => n,
        None => Single { bits: 0 },
    }
}

/// The whole part of the number in a cell; 0 where that is negative or no number.
pub open spec fn cell_whole(parts: Seq<Seq<char>>, i: int) -> u64 {
    cell_number(parts, i).whole() as u64
}

impl GpuStats {
    /// The statistics are those of a row's cells.
    pub open spec fn reads(self, parts: Seq<Seq<char>>) -> bool {
        &&& self.index == cell_whole(parts, 0) as u32
        &&& cell(parts, 1) == Some(self.name@)
        &&& self.mem_total_mb == cell_whole(parts, 2)
        &&& self.mem_used_mb == cell_whole(parts, 3)
        &&& self.mem_free_mb == cell_whole(parts, 4)
        &&& self.utilization_gpu == cell_number(parts, 5)
        &&& self.utilization_mem == cell_number(parts, 6)
        &&& self.power_watts == cell_number(parts, 7)
        &&& self.power_max_watts == cell_number(parts, 8).or_one()
        &&& self.temperature == cell_reading(parts, 9)
        &&& self.clock_sm_mhz == cell_whole(parts, 10) as u32
        &&& self.clock_sm_max_mhz == cell_whole(parts, 11) as u32
        &&& self.clock_mem_mhz == cell_whole(parts, 12) as u32
        &&& self.fan_pct == cell_reading(parts, 13)
        &&& self.pcie_gen == cell_whole(parts, 14) as u32
        &&& self.pcie_width == cell_whole(parts, 15) as u32
    }

    /// The share of the memory in use, in percent.
    pub open spec fn used_percent(self) -> u64 {
        if self.mem_total_mb == 0 {
            0
        } else {
            micro::scaled(self.mem_used_mb as int, 100 * micro::ONE, self.mem_total_mb as int)
        }
    }

    /// The memory in use, in GB.
    pub open spec fn used_gb(self) -> u64 {
        micro::ratio(self.mem_used_mb as int, 1024)
    }

    /// All of the memory, in GB.
    pub open spec fn total_gb(self) -> u64 {
        micro::ratio(self.mem_total_mb as int, 1024)
    }

    /// The clock as a share of the top clock.
    pub open spec fn clock_share(self) -> u64 {
        if self.clock_sm_max_mhz == 0 {
            0
        } else {
            micro::share(self.clock_sm_mhz as int, self.clock_sm_max_mhz as int)
        }
    }

    /// The share of the memory in use, in percent.
    pub fn vram_percent(&self) -> (r: u64)
        ensures
            r == self.used_percent(),
            r == (if self.mem_total_mb == 0 {
                0
            } else {
                micro::scaled(
                    self.mem_used_mb as int,
                    100 * micro::ONE,
                    self.mem_total_mb as int,
                )
            }),
    {
        if self.mem_total_mb == 0 {
            0
        } else {
            micro::scale(self.mem_used_mb, 100 * micro::ONE, self.mem_total_mb)
        }
    }

    pub fn vram_gb(&self) -> (r: u64)
        ensures
            r == micro::ratio(self.mem_used_mb as int, 1024),
            r == self.used_gb(),
    {
        micro::ratio_of(self.mem_used_mb, 1024)
    }

    pub fn vram_total_gb(&self) -> (r: u64)
        ensures
            r == micro::ratio(self.mem_total_mb as int, 1024),
            r == self.total_gb(),
    {
        micro::ratio_of(self.mem_total_mb, 1024)
    }

    pub open spec fn power_share(self) -> u64 {
        let max = self.power_max_watts.millionths();
        if max <= 0 {
            0
        } else {
            micro::share(micro::positive(self.power_watts.millionths()) as int, max as int)
        }
    }

    pub fn power_frac(&self) -> (r: u64)
        ensures
            r == self.power_share(),
            r <= micro::ONE,
    {
        let max: i64 = self.power_max_watts.to_millionths();
        if max <= 0 {
            0
        } else {
            micro::share_of(micro::above_zero(self.power_watts.to_millionths()), max as u64)
        }
    }

    pub fn clock_frac(&self) -> (r: u64)
        ensures
            r == self.clock_share(),
            r == (if self.clock_sm_max_mhz == 0 {
                0
            } else {
                micro::share(self.clock_sm_mhz as int, self.clock_sm_max_mhz as int)
            }),
            r <= micro::ONE,
    {
        if self.clock_sm_max_mhz == 0 {
            0
        } else {
            micro::share_of(self.clock_sm_mhz as u64, self.clock_sm_max_mhz as u64)
        }
    }

    /// Short marketing name: "GeForce GTX 1070" → "GTX 1070", "Tesla P100-PCIE-12GB" → "P100".
    pub fn short_name(&self) -> (r: String)
        ensures
            r@ == short_card_name(self.name@),
    {
        let n = text::without_prefixes(&text::chars_of(self.name.as_str()), "NVIDIA ");
        let n = text::without_prefixes(&n, "GeForce ");
        let n = text::without_prefixes(&n, "Tesla ");
        let n = text::cut_before(&n, "-PCIE");
        let n = text::cut_before(&n, "-SXM");
        text::string_of(&text::trim(&n))
    }
}

/// Collects GPU stats from nvidia-smi (CSV format) every 200ms.
#[derive(Clone, Copy, Debug, PartialEq, Eq, Structural)]
pub struct GpuMonitor {
    /// The time between two polls, in nanoseconds.
    pub interval: u64,
}

impl GpuMonitor {
    pub fn new() -> (r: GpuMonitor)
        ensures
            r.interval == 200 * micro::MILLISECOND,
    {
        GpuMonitor { interval: 200 * micro::MILLISECOND }
    }
}

/// The cells of a line that holds a card: one with at least ten cells.
pub open spec fn card_cells(line: Seq<char>) -> Option<Seq<Seq<char>>> {
    let parts = text::split_on(text::trimmed(line), ',');
    if parts.len() < 10 {
        None
    } else {
        Some(parts)
    }
}

/// The cells of the cards in the first `n` lines.
pub open spec fn cards_in(lines: Seq<Seq<char>>, n: int) -> Seq<Seq<Seq<char>>>
    decreases n,
{
    if n <= 0 {
        Seq::empty()
    } else {
        match card_cells(lines[n - 1]) {
            Some(parts) => cards_in(lines, n - 1).push(parts),
            None => cards_in(lines, n - 1),
        }
    }
}

/// The statistics are those of the cards in a table.
pub open spec fn table_reads(stats: Seq<GpuStats>, table: Seq<char>) -> bool {
    let lines = text::lines(table);
    let cards = cards_in(lines, lines.len() as int);
    stats.len() == cards.len() && forall|i: int|
        0 <= i < stats.len() ==> (#[trigger] stats[i]).reads(cards[i])
}

fn opt(parts: &Vec<Vec<char>>, i: usize) -> (r: Option<Single>)
    ensures
        r == cell_reading(text::texts(parts@), i as int),
{
    if i < parts.len() {
        assert(text::texts(parts@)[i as int] == parts@[i as int]@);
        decimal::parse_number(&text::trim(&parts[i]))
    } else {
        None
    }
}

fn num(parts: &Vec<Vec<char>>, i: usize) -> (r: Single)
    ensures
        r == cell_number(text::texts(parts@), i as int),
{
    match opt(parts, i) {
        Some(x) => x,
        None => Single::zero(),
    }
}

fn int_in(parts: &Vec<Vec<char>>, i: usize) -> (r: u64)
    ensures
        r == cell_whole(text::texts(parts@), i as int),
{
    num(parts, i).to_whole()
}

/// The statistics in the cells of one row.
fn card(parts: &Vec<Vec<char>>) -> (r: GpuStats)
    requires
        parts.len() >= 10,
    ensures
        r.reads(text::texts(parts@)),
{
    assert(text::texts(parts@)[1] == parts@[1]@);
    GpuStats {
        index: int_in(parts, 0) as u32,
        name: text::string_of(&text::trim(&parts[1])),
        mem_total_mb: int_in(parts, 2),
        mem_used_mb: int_in(parts, 3),
        mem_free_mb: int_in(parts, 4),
        utilization_gpu: num(parts, 5),
        utilization_mem: num(parts, 6),
        power_watts: num(parts, 7),
        power_max_watts: num(parts, 8).at_least_one(),
        temperature: opt(parts, 9),
        clock_sm_mhz: int_in(parts, 10) as u32,
        clock_sm_max_mhz: int_in(parts, 11) as u32,
        clock_mem_mhz: int_in(parts, 12) as u32,
        fan_pct: opt(parts, 13),
        pcie_gen: int_in(parts, 14) as u32,
        pcie_width: int_in(parts, 15) as u32,
    }
}

/// Reads the table of cards that nvidia-smi prints. A line with fewer than ten
/// cells is no card; a cell that holds no number reads as 0, or as nothing for
/// the temperature and the fan.
pub fn parse_csv(stdout: &str) -> (r: Vec<GpuStats>)
    ensures
        table_reads(r@, stdout@),
{
    let lines = text::lines_of(&text::chars_of(stdout));
    let ghost all = text::texts(lines@);
    let mut stats: Vec<GpuStats> = Vec::new();
    let mut i: usize = 0;
    while i < lines.len()
        invariant
            i <= lines.len(),
            all == text::texts(lines@),
            stats@.len() == cards_in(all, i as int).len(),
            forall|j: int|
                0 <= j < stats@.len() ==> (#[trigger] stats@[j]).reads(cards_in(all, i as int)[j]),
        decreases lines.len() - i,
    {
        assert(all[i as int] == lines@[i as int]@);
        let parts = text::split(&text::trim(&lines[i]), ',');
        if parts.len() >= 10 {
            stats.push(card(&parts));
        }
        i += 1;
    }
    stats
}

/// Reads the table of cards from what nvidia-smi printed.
pub fn read_table(stdout: &[u8]) -> (r: Vec<GpuStats>)
    ensures
        table_reads(r@, text::utf8_lossy(stdout@)),
{
    let table = text::from_utf8_lossy(stdout);
    parse_csv(table.as_str())
}

/// The first line of a list, from `i` on, that is not blank.
pub open spec fn first_told(lines: Seq<Seq<char>>, i: int) -> Option<Seq<char>>
    decreases lines.len() - i,
{
    if i >= lines.len() {
        None
    } else if text::trimmed(lines[i]).len() > 0 {
        Some(lines[i])
    } else {
        first_told(lines, i + 1)
    }
}

/// The first line of a text that is not blank.
pub fn first_line(s: &str) -> (r: Option<String>)
    ensures
        r is Some <==> first_told(text::lines(s@), 0) is Some,
        r matches Some(l) ==> first_told(text::lines(s@), 0) == Some(l@),
{
    let lines = text::lines_of(&text::chars_of(s));
    let ghost all = text::texts(lines@);
    let mut i: usize = 0;
    while i < lines.len()
        invariant
            i <= lines.len(),
            all == text::texts(lines@),
            all == text::lines(s@),
            first_told(all, i as int) == first_told(all, 0),
        decreases lines.len() - i,
    {
        assert(all[i as int] == lines@[i as int]@);
        if !text::is_blank(&lines[i]) {
            return Some(text::string_of(&lines[i]));
        }
        i += 1;
    }
    None
}

/// Why nvidia-smi failed, in its own words: the first line of its errors, else of
/// its output, that says something ("Failed to initialize NVML: Driver/library
/// version mismatch", ...).
pub fn failure_reason(stderr: &[u8], stdout: &[u8]) -> (r: Option<String>)
    ensures
        ({
            let told = match first_told(text::lines(text::utf8_lossy(stderr@)), 0) {
                Some(l) => Some(l),
                None => first_told(text::lines(text::utf8_lossy(stdout@)), 0),
            };
            (r is Some <==> told is Some) && (r matches Some(l) ==> told == Some(l@))
        }),
{
    let errors = text::from_utf8_lossy(stderr);
    match first_line(errors.as_str()) {
        Some(l) => Some(l),
        None => {
            let output = text::from_utf8_lossy(stdout);
            first_line(output.as_str())
        },
    }
}

fn holds(list: &[usize], n: usize) -> (r: bool)
    ensures
        r == list@.contains(n),
{
    let mut i: usize = 0;
    while i < list.len()
        invariant
            i <= list.len(),
            forall|j: int| 0 <= j < i ==> list@[j] != n,
        decreases list.len() - i,
    {
        if list[i] == n {
            assert(list@[i as int] == n);
            return true;
        }
        i += 1;
    }
    false
}

/// The index of a card is in a list.
pub open spec fn index_in(filter: Seq<usize>) -> spec_fn(GpuStats) -> bool {
    |g: GpuStats| filter.contains(g.index as usize)
}

/// Keeps the cards whose index `filter` holds; an empty filter keeps all.
pub fn filter_gpus(stats: Vec<GpuStats>, filter: &[usize]) -> (r: Vec<GpuStats>)
    ensures
        filter@.len() == 0 ==> r@ == stats@,
        filter@.len() > 0 ==> r@ == stats@.filter(index_in(filter@)),
{
    if filter.len() == 0 {
        return stats;
    }
    let ghost all = stats@;
    let ghost keep = index_in(filter@);
    let mut stats = stats;
    let mut back: Vec<GpuStats> = Vec::new();
    proof {
        reveal(Seq::filter);
        assert(all.take(all.len() as int) =~= all);
        assert(all.skip(all.len() as int).filter(keep) =~= Seq::<GpuStats>::empty());
        assert(back@ =~= all.skip(all.len() as int).filter(keep).reverse());
    }
    while stats.len() > 0
        invariant
            keep == index_in(filter@),
            stats@.len() <= all.len(),
            stats@ == all.take(stats@.len() as int),
            back@ == all.skip(stats@.len() as int).filter(keep).reverse(),
        decreases stats.len(),
    {
        let g = stats.pop().unwrap();
        let ghost at = stats@.len() as int;
        proof {
            assert(stats@ =~= all.take(at));
            assert(all.skip(at) =~= seq![g] + all.skip(at + 1));
            order::lemma_filter_front(g, all.skip(at + 1), keep);
        }
        if holds(filter, g.index as usize) {
            let ghost tail = all.skip(at + 1).filter(keep);
            back.push(g);
            assert(back@ =~= (seq![g] + tail).reverse());
        }
    }
    proof {
        assert(all.skip(0) =~= all);
        order::lemma_reverse_twice(all.filter(keep));
    }
    order::reversed(back)
}

/// `cur` moved by `percent` of the way to `target`.
pub open spec fn toward(cur: u64, target: u64, percent: u64) -> int {
    if target >= cur {
        cur + (target - cur) * percent / 100
    } else {
        cur - (cur - target) * percent / 100
    }
}

/// `v` moved by up to half of `width` up or down, as `bits` out of 32 bits say.
pub open spec fn nudged(v: int, bits: u64, width: u64) -> int {
    let up = v + bits * width / 0x1_0000_0000;
    if up > width / 2 {
        up - width / 2
    } else {
        0
    }
}

pub open spec fn clamped(v: int, low: int, high: int) -> int {
    if v < low {
        low
    } else if v > high {
        high
    } else {
        v
    }
}

/// What a demo card is: its memory in MB, its power limit in W, its top clock in
/// MHz.
pub open spec fn demo_card(index: usize) -> (u64, u64, u32) {
    if index == 0 {
        (8192, 151, 1911)
    } else if index == 1 {
        (12288, 250, 1328)
    } else {
        (81920, 400, 1410)
    }
}

pub open spec fn demo_card_name(index: usize) -> Seq<char> {
    if index == 0 {
        "NVIDIA GeForce GTX 1070"@
    } else if index == 1 {
        "Tesla P100-PCIE-12GB"@
    } else if index == 2 {
        "NVIDIA A100-SXM4-80GB"@
    } else {
        "GPU "@ + text::decimal(index as nat)
    }
}

/// Demo GPU: a smooth random walk so meters breathe instead of flicker.
#[derive(Clone, Copy, Debug, PartialEq, Eq, Structural)]
pub struct DemoGpu {
    pub index: usize,
    pub seed: u64,
    /// %
    pub util: u64,
    /// Share of the power limit.
    pub power: u64,
    /// Degrees.
    pub temp: u64,
    /// Share of the top clock.
    pub clock: u64,
    /// MB.
    pub mem_used: u64,
}

/// The part of the way to its target that a value goes in one step.
fn step_toward(cur: u64, target: u64, percent: u64) -> (r: u64)
    requires
        cur <= 0x1_0000_0000_0000,
        target <= 0x1_0000_0000_0000,
        percent <= 100,
    ensures
        r == toward(cur, target, percent),
        cur <= target ==> cur <= r <= target,
        target <= cur ==> target <= r <= cur,
{
    if target >= cur {
        let d: u64 = target - cur;
        proof {
            lemma_percent(d as int, percent as int);
        }
        cur + d * percent / 100
    } else {
        let d: u64 = cur - target;
        proof {
            lemma_percent(d as int, percent as int);
        }
        cur - d * percent / 100
    }
}

proof fn lemma_percent(d: int, percent: int)
    requires
        0 <= d <= 0x1_0000_0000_0000,
        0 <= percent <= 100,
    ensures
        0 <= d * percent <= d * 100,
        0 <= d * percent / 100 <= d,
{
    assert(0 <= d * percent <= d * 100) by (nonlinear_arith)
        requires
            0 <= d,
            0 <= percent <= 100,
    ;
}

fn nudge(v: u64, bits: u64, width: u64) -> (r: u64)
    requires
        v <= 0x1_0000_0000_0000,
        bits < 0x1_0000_0000,
        width <= 0x1000_0000,
    ensures
        r == nudged(v as int, bits, width),
        r <= v + width - width / 2,
{
    assert(0 <= bits * width <= 0xffff_ffff * width) by (nonlinear_arith)
        requires
            0 <= bits <= 0xffff_ffff,
            0 <= width,
    ;
    let up: u64 = v + bits * width / 0x1_0000_0000;
    if up > width / 2 {
        up - width / 2
    } else {
        0
    }
}

fn clamp(v: u64, low: u64, high: u64) -> (r: u64)
    requires
        low <= high,
    ensures
        r == clamped(v as int, low as int, high as int),
        low <= r <= high,
{
    if v < low {
        low
    } else if v > high {
        high
    } else {
        v
    }
}

impl DemoGpu {
    /// The walk stays within what its meters can show.
    pub open spec fn wf(self) -> bool {
        &&& self.util <= 100 * micro::ONE
        &&& self.power <= micro::ONE
        &&& self.temp <= 86 * micro::ONE
        &&& self.clock <= micro::ONE
        &&& self.mem_used <= demo_card(self.index).0 * micro::ONE
    }

    /// The walk one step on, pulled toward a load.
    pub open spec fn stepped(self, load: u64) -> DemoGpu {
        let s1 = generator::next_seed(self.seed);
        let s2 = generator::next_seed(s1);
        let s3 = generator::next_seed(s2);
        let s4 = generator::next_seed(s3);
        let total = demo_card(self.index).0;
        let util = clamped(
            nudged(
                toward(self.util, (load * 92 + 3 * micro::ONE) as u64, 35),
                generator::drawn(s1),
                14_000_000,
            ),
            0,
            100 * micro::ONE,
        ) as u64;
        let power = clamped(
            nudged(toward(self.power, (180_000 + util * 8 / 1000) as u64, 25), generator::drawn(s2), 40_000),
            50_000,
            micro::ONE as int,
        ) as u64;
        let temp = nudged(
            toward(self.temp, (42 * micro::ONE + 38 * power) as u64, 3),
            generator::drawn(s3),
            300_000,
        ) as u64;
        let clock = clamped(
            nudged(
                toward(
                    self.clock,
                    if util > 8 * micro::ONE {
                        970_000
                    } else {
                        350_000
                    },
                    40,
                ),
                generator::drawn(s4),
                20_000,
            ),
            100_000,
            micro::ONE as int,
        ) as u64;
        let pull = micro::larger(load, 150_000);
        let mem_used = toward(
            self.mem_used,
            (total * 680_000 + total * pull * 22 / 100) as u64,
            20,
        ) as u64;
        DemoGpu { index: self.index, seed: s4, util, power, temp, clock, mem_used }
    }

    pub fn new(index: usize) -> (r: DemoGpu)
        ensures
            r == (DemoGpu {
                index,
                seed: ((index as u64).wrapping_add(1)).wrapping_mul(6364136223846793005),
                util: 20_000_000,
                power: 300_000,
                temp: 45_000_000,
                clock: 500_000,
                mem_used: 0,
            }),
            r.wf(),
    {
        DemoGpu {
            index,
            seed: (index as u64).wrapping_add(1).wrapping_mul(6364136223846793005),
            util: 20 * micro::ONE,
            power: 300_000,
            temp: 45 * micro::ONE,
            clock: 500_000,
            mem_used: 0,
        }
    }

    /// One step of the walk. `load` in 0..1 is the inference activity the walk is
    /// pulled toward.
    pub fn step(&mut self, load: u64) -> (r: GpuStats)
        requires
            old(self).wf(),
            load <= micro::ONE,
        ensures
            *final(self) == old(self).stepped(load),
            final(self).wf(),
            r.shows(*final(self)),
            decimal::of_millionths(100_000_000).at_least(r.utilization_gpu),
            r.mem_used_mb <= r.mem_total_mb,
            r.power_max_watts.at_least(r.power_watts),
    {
        let ghost before = *self;
        let (mem_total, pmax, cmax): (u64, u64, u32) = if self.index == 0 {
            (8192, 151, 1911)
        } else if self.index == 1 {
            (12288, 250, 1328)
        } else {
            (81920, 400, 1410)
        };
        let mut seed: u64 = self.seed;
        let d1: u64 = generator::draw(&mut seed);
        let d2: u64 = generator::draw(&mut seed);
        let d3: u64 = generator::draw(&mut seed);
        let d4: u64 = generator::draw(&mut seed);
        self.seed = seed;
        let pulled: u64 = step_toward(self.util, load * 92 + 3 * micro::ONE, 35);
        self.util = clamp(
            nudge(pulled, d1, 14 * micro::ONE),
            0,
            100 * micro::ONE,
        );
        let pulled: u64 = step_toward(self.power, 180_000 + self.util * 8 / 1000, 25);
        self.power = clamp(nudge(pulled, d2, 40_000), 50_000, micro::ONE);
        let pulled: u64 = step_toward(self.temp, 42 * micro::ONE + 38 * self.power, 3);
        self.temp = nudge(pulled, d3, 300_000);
        let target: u64 = if self.util > 8 * micro::ONE {
            970_000
        } else {
            350_000
        };
        let pulled: u64 = step_toward(self.clock, target, 40);
        self.clock = clamp(nudge(pulled, d4, 20_000), 100_000, micro::ONE);
        let pull: u64 = micro::max(load, 150_000);
        assert(0 <= mem_total * pull <= mem_total * 1_000_000) by (nonlinear_arith)
            requires
                0 <= pull <= 1_000_000,
                0 <= mem_total,
        ;
        self.mem_used = step_toward(
            self.mem_used,
            mem_total * 680_000 + mem_total * pull * 22 / 100,
            20,
        );
        let mem_used_mb: u64 = self.mem_used / micro::ONE;
        assert(0 <= self.power * pmax <= 1_000_000 * pmax) by (nonlinear_arith)
            requires
                0 <= self.power <= 1_000_000,
                0 <= pmax,
        ;
        assert(0 <= self.clock * cmax <= 1_000_000 * cmax) by (nonlinear_arith)
            requires
                0 <= self.clock <= 1_000_000,
                0 <= cmax,
        ;
        assert(*self == before.stepped(load));
        let utilization_gpu = decimal::from_millionths(self.util);
        let power_watts = decimal::from_millionths(self.power * pmax);
        let power_max_watts = decimal::from_millionths(pmax * micro::ONE);
        let full = decimal::from_millionths(100 * micro::ONE);
        proof {
            decimal::nearest_numbers_are_ordered(
                self.util as nat,
                100_000_000,
                1_000_000,
                utilization_gpu.bits as int,
                full.bits as int,
            );
            decimal::nearest_numbers_are_ordered(
                (self.power * pmax) as nat,
                (pmax * micro::ONE) as nat,
                1_000_000,
                power_watts.bits as int,
                power_max_watts.bits as int,
            );
            float::bits_order_numbers(utilization_gpu, full);
            float::bits_order_numbers(power_watts, power_max_watts);
        }
        GpuStats {
            index: self.index as u32,
            name: demo_name(self.index),
            utilization_gpu,
            utilization_mem: decimal::from_millionths(self.util * 6 / 10),
            mem_total_mb: mem_total,
            mem_used_mb,
            mem_free_mb: mem_total - mem_used_mb,
            power_watts,
            power_max_watts,
            temperature: Some(decimal::from_millionths(self.temp)),
            clock_sm_mhz: (self.clock * cmax as u64 / micro::ONE) as u32,
            clock_sm_max_mhz: cmax,
            clock_mem_mhz: if self.index == 1 {
                715
            } else {
                3802
            },
            fan_pct: if self.index == 1 {
                None
            } else {
                Some(decimal::from_millionths(20 * micro::ONE + 60 * self.power))
            },
            pcie_gen: 3,
            pcie_width: if self.index == 0 {
                8
            } else {
                16
            },
        }
    }
}

fn demo_name(index: usize) -> (r: String)
    ensures
        r@ == demo_card_name(index),
{
    if index == 0 {
        "NVIDIA GeForce GTX 1070".to_owned()
    } else if index == 1 {
        "Tesla P100-PCIE-12GB".to_owned()
    } else if index == 2 {
        "NVIDIA A100-SXM4-80GB".to_owned()
    } else {
        let mut out = text::chars_of("GPU ");
        text::add_number(&mut out, index as u64);
        text::string_of(&out)
    }
}

impl GpuStats {
    /// The statistics are what a demo card shows.
    pub open spec fn shows(self, g: DemoGpu) -> bool {
        let (mem_total, pmax, cmax) = demo_card(g.index);
        &&& self.index == g.index as u32
        &&& self.name@ == demo_card_name(g.index)
        &&& self.utilization_gpu == decimal::of_millionths(g.util as nat)
        &&& self.utilization_mem == decimal::of_millionths((g.util * 6 / 10) as nat)
        &&& self.mem_total_mb == mem_total
        &&& self.mem_used_mb == g.mem_used / micro::ONE
        &&& self.mem_free_mb == mem_total - self.mem_used_mb
        &&& self.power_watts == decimal::of_millionths((g.power * pmax) as nat)
        &&& self.power_max_watts == decimal::of_millionths((pmax * micro::ONE) as nat)
        &&& self.temperature == Some(decimal::of_millionths(g.temp as nat))
        &&& self.clock_sm_mhz == g.clock * cmax / micro::ONE as int
        &&& self.clock_sm_max_mhz == cmax
        &&& self.clock_mem_mhz == (if g.index == 1 {
            715u32
        } else {
            3802
        })
        &&& self.fan_pct == (if g.index == 1 {
            None
        } else {
            Some(decimal::of_millionths((20 * micro::ONE + 60 * g.power) as nat))
        })
        &&& self.pcie_gen == 3
        &&& self.pcie_width == (if g.index == 0 {
            8u32
        } else {
            16
        })
    }
}

} // verus!
