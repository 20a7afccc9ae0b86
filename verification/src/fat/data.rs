//! The data area: clusters of sectors, numbered from [`ClusterId::min`].

use vstd::prelude::*;

use core::ops::Range;

use crate::fat::bpb::Bpb;
use crate::fat::cluster::{spec_validate, ClusterError, ClusterId};
use crate::fat::sector::SectorId;

verus! {

/// The sectors of the data area, and how many make a cluster.
#[derive(Debug)]
pub struct DataArea {
    pub range: Range<SectorId>,
    pub cluster_sectors: usize,
}

impl DataArea {
    pub open spec fn start(&self) -> int {
        self.range.start.0 as int
    }

    pub open spec fn end(&self) -> int {
        self.range.end.0 as int
    }

    /// The first sector of cluster `id`.
    pub open spec fn cluster_start(&self, id: u32) -> int {
        self.start() + (id - 2) * self.cluster_sectors
    }

    /// One past the last sector of cluster `id`: a whole cluster, cut at the
    /// end of the data area.
    pub open spec fn cluster_end(&self, id: u32) -> int {
        if self.cluster_start(id) + self.cluster_sectors <= self.end() {
            self.cluster_start(id) + self.cluster_sectors
        } else {
            self.end()
        }
    }

    /// The sector numbers of cluster `id` fit the machine.
    pub open spec fn cluster_fits(&self, id: u32) -> bool {
        2 <= id ==> self.cluster_start(id) + self.cluster_sectors <= usize::MAX
    }

    /// The sectors of two clusters never overlap: a cluster ends at or
    /// before the start of any later one.
    pub proof fn lemma_clusters_apart(&self, a: u32, b: u32)
        requires
            2 <= a < b,
        ensures
            self.cluster_end(a) <= self.cluster_start(b),
    {
        vstd::arithmetic::mul::lemma_mul_inequality(a - 1, b - 2, self.cluster_sectors as int);
        vstd::arithmetic::mul::lemma_mul_is_distributive_add_other_way(self.cluster_sectors as int, a - 2, 1);
    }

    /// What [`DataArea::cluster`] answers.
    pub open spec fn spec_cluster(&self, id: ClusterId) -> Result<Range<SectorId>, ClusterError> {
        match spec_validate(id) {
            Err(e) => Err(e),
            Ok(id) => Ok(Range {
                start: SectorId(self.cluster_start(id.0) as usize),
                end: SectorId(self.cluster_end(id.0) as usize),
            }),
        }
    }

    /// The data area of the volume `bpb` describes.
    pub fn new(bpb: &Bpb) -> (r: Self)
        requires
            bpb.in_range(),
        ensures
            r.start() == bpb.spec_data_area(),
            r.end() == bpb.spec_total_sectors(),
            r.cluster_sectors == bpb.sec_per_clus.spec_value(),
    {
        let start = bpb.data_area();
        let end = SectorId::new(bpb.total_sectors());
        DataArea { range: Range { start, end }, cluster_sectors: bpb.cluster_sectors() }
    }

    /// The sectors of cluster `id`.
    pub fn cluster(&self, id: ClusterId) -> (r: Result<Range<SectorId>, ClusterError>)
        requires
            self.cluster_fits(id.0),
        ensures
            r == self.spec_cluster(id),
    {
        let id = match id.validate() {
            Err(e) => return Err(e),
            Ok(id) => id,
        };
        let start = self.range.start.0 + (id.0 - 2) as usize * self.cluster_sectors;
        let end = if start + self.cluster_sectors <= self.range.end.0 {
            start + self.cluster_sectors
        } else {
            self.range.end.0
        };
        Ok(Range { start: SectorId::new(start), end: SectorId::new(end) })
    }
}

} // verus!
