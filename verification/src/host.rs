//! What the host reports of its memory, disks and buses.
use vstd::prelude::*;

verus! {

/// One look at the host's counters. A counter that could not be read is missing.
#[derive(Clone, Debug)]
pub struct HostSample {
    pub disk_read_bytes: Option<u64>,
    pub proc_read_bytes: Option<u64>,
    pub proc_majflt: Option<u64>,
    pub rss_file_bytes: Option<u64>,
    pub rss_bytes: Option<u64>,
    pub mem_total_bytes: Option<u64>,
    pub mem_available_bytes: Option<u64>,
    pub page_cache_bytes: Option<u64>,
    /// GPU index, then MB/s to and from the card, in millionths.
    pub pcie_mb_s: Vec<(u32, u64, u64)>,
    pub pcie_ok: bool,
}

/// One look at the host's counters, as mathematical values.
pub struct Host {
    pub disk_read_bytes: Option<u64>,
    pub proc_read_bytes: Option<u64>,
    pub proc_majflt: Option<u64>,
    pub rss_file_bytes: Option<u64>,
    pub rss_bytes: Option<u64>,
    pub mem_total_bytes: Option<u64>,
    pub mem_available_bytes: Option<u64>,
    pub page_cache_bytes: Option<u64>,
    pub pcie_mb_s: Seq<(u32, u64, u64)>,
    pub pcie_ok: bool,
}

impl View for HostSample {
    type V = Host;

    open spec fn view(&self) -> Host {
        Host {
            disk_read_bytes: self.disk_read_bytes,
            proc_read_bytes: self.proc_read_bytes,
            proc_majflt: self.proc_majflt,
            rss_file_bytes: self.rss_file_bytes,
            rss_bytes: self.rss_bytes,
            mem_total_bytes: self.mem_total_bytes,
            mem_available_bytes: self.mem_available_bytes,
            page_cache_bytes: self.page_cache_bytes,
            pcie_mb_s: self.pcie_mb_s@,
            pcie_ok: self.pcie_ok,
        }
    }
}

/// A look that saw nothing.
pub open spec fn unseen() -> Host {
    Host {
        disk_read_bytes: None,
        proc_read_bytes: None,
        proc_majflt: None,
        rss_file_bytes: None,
        rss_bytes: None,
        mem_total_bytes: None,
        mem_available_bytes: None,
        page_cache_bytes: None,
        pcie_mb_s: Seq::empty(),
        pcie_ok: false,
    }
}

impl Default for HostSample {
    fn default() -> (r: HostSample)
        ensures
            r@ == unseen(),
    {
        let r = HostSample {
            disk_read_bytes: None,
            proc_read_bytes: None,
            proc_majflt: None,
            rss_file_bytes: None,
            rss_bytes: None,
            mem_total_bytes: None,
            mem_available_bytes: None,
            page_cache_bytes: None,
            pcie_mb_s: Vec::new(),
            pcie_ok: false,
        };
        assert(r.pcie_mb_s@ =~= Seq::<(u32, u64, u64)>::empty());
        r
    }
}

impl HostSample {
    /// The same sample once more.
    pub fn copy(&self) -> (r: HostSample)
        ensures
            r@ == self@,
    {
        let mut pcie_mb_s: Vec<(u32, u64, u64)> = Vec::new();
        let mut i: usize = 0;
        while i < self.pcie_mb_s.len()
            invariant
                i <= self.pcie_mb_s.len(),
                pcie_mb_s@ == self.pcie_mb_s@.take(i as int),
            decreases self.pcie_mb_s.len() - i,
        {
            pcie_mb_s.push(self.pcie_mb_s[i]);
            assert(pcie_mb_s@ =~= self.pcie_mb_s@.take(i + 1));
            i += 1;
        }
        assert(pcie_mb_s@ =~= self.pcie_mb_s@);
        HostSample {
            disk_read_bytes: self.disk_read_bytes,
            proc_read_bytes: self.proc_read_bytes,
            proc_majflt: self.proc_majflt,
            rss_file_bytes: self.rss_file_bytes,
            rss_bytes: self.rss_bytes,
            mem_total_bytes: self.mem_total_bytes,
            mem_available_bytes: self.mem_available_bytes,
            page_cache_bytes: self.page_cache_bytes,
            pcie_mb_s,
            pcie_ok: self.pcie_ok,
        }
    }
}

} // verus!
