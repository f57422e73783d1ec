//! Disk geometry and the layout of data onto tracks.
use vstd::prelude::*;

verus! {

/// Number of sector sizes tried by the adaptive geometry search.
pub const NUM_SECTOR_CANDIDATES: usize = 7;

/// The i-th candidate sector size: 8, 16, 32, 64, 128, 256, 512.
pub open spec fn spec_sector_candidate(i: int) -> usize {
    if i == 0 { 8 } else if i == 1 { 16 } else if i == 2 { 32 } else if i == 3 { 64 }
    else if i == 4 { 128 } else if i == 5 { 256 } else { 512 }
}

/// Candidate sector sizes for adaptive geometry selection.
pub fn sector_candidate(i: usize) -> (r: usize)
    requires i < NUM_SECTOR_CANDIDATES,
    ensures r == spec_sector_candidate(i as int),
{
    if i == 0 { 8 } else if i == 1 { 16 } else if i == 2 { 32 } else if i == 3 { 64 }
    else if i == 4 { 128 } else if i == 5 { 256 } else { 512 }
}

#[derive(Debug, Clone, Copy, PartialEq, Eq)]
pub struct DiskGeometry {
    pub tracks: usize,
    pub sectors_per_track: usize,
}

/// Number of tracks needed to hold `len` bytes at `spt` bytes per track.
pub open spec fn spec_num_tracks(len: int, spt: int) -> int {
    if len == 0 { 0 } else { (len - 1 + spt) / spt }
}

impl DiskGeometry {
    pub open spec fn spec_capacity(&self) -> int {
        self.tracks * self.sectors_per_track
    }

    /// Total number of bytes the geometry holds.
    pub fn capacity(&self) -> (r: usize)
        requires self.tracks * self.sectors_per_track <= usize::MAX,
        ensures r == self.spec_capacity(),
    {
        self.tracks * self.sectors_per_track
    }
}

/// Geometry with `sectors_per_track` bytes per track and as many tracks as
/// `data_len` bytes need.
pub fn compute_geometry(data_len: usize, sectors_per_track: usize) -> (g: DiskGeometry)
    requires
        sectors_per_track > 0,
        data_len + sectors_per_track - 1 <= usize::MAX,
    ensures
        g.sectors_per_track == sectors_per_track,
        g.tracks == spec_num_tracks(data_len as int, sectors_per_track as int),
        g.tracks * sectors_per_track >= data_len,
        data_len > 0 ==> (g.tracks - 1) * sectors_per_track < data_len,
{
    if data_len == 0 {
        return DiskGeometry { tracks: 0, sectors_per_track };
    }
    let tracks = (data_len - 1 + sectors_per_track) / sectors_per_track;
    proof {
        lemma_ceil_div(data_len as int, sectors_per_track as int);
    }
    DiskGeometry { tracks, sectors_per_track }
}

pub proof fn lemma_ceil_div(len: int, spt: int)
    requires len > 0, spt > 0,
    ensures
        ((len - 1 + spt) / spt) * spt >= len,
        ((len - 1 + spt) / spt) * spt < len + spt,
        ((len - 1 + spt) / spt - 1) * spt < len,
        (len - 1 + spt) / spt >= 1,
{
    let q = (len - 1 + spt) / spt;
    let r = (len - 1 + spt) % spt;
    vstd::arithmetic::div_mod::lemma_fundamental_div_mod(len - 1 + spt, spt);
    assert(q * spt + r == len - 1 + spt);
    assert(0 <= r < spt);
    assert(q * spt >= len);
    assert((q - 1) * spt == q * spt - spt) by (nonlinear_arith);
    assert(q * spt > 0);
    assert(q >= 1) by (nonlinear_arith) requires q * spt > 0, spt > 0;
}

/// Byte `j` of track `t` when `data` is laid out `spt` bytes per track:
/// the data byte there, or zero past the end of the data.
pub open spec fn spec_track_byte(data: Seq<u8>, spt: int, t: int, j: int) -> u8 {
    if t * spt + j < data.len() { data[t * spt + j] } else { 0 }
}

/// Track `t` of the layout.
pub open spec fn spec_track(data: Seq<u8>, spt: int, t: int) -> Seq<u8> {
    Seq::new(spt as nat, |j: int| spec_track_byte(data, spt, t, j))
}

/// Lay out data onto tracks. Pads last track with zeros.
pub fn lay_out(data: &[u8], geom: &DiskGeometry) -> (tracks: Vec<Vec<u8>>)
    requires
        geom.sectors_per_track > 0,
        geom.tracks * geom.sectors_per_track <= usize::MAX,
    ensures
        tracks.len() == geom.tracks,
        forall|t: int| 0 <= t < geom.tracks ==>
            #[trigger] tracks[t]@ == spec_track(data@, geom.sectors_per_track as int, t),
{
    let spt = geom.sectors_per_track;
    let mut tracks: Vec<Vec<u8>> = Vec::with_capacity(geom.tracks);
    let mut t: usize = 0;
    while t < geom.tracks
        invariant
            spt == geom.sectors_per_track,
            spt > 0,
            geom.tracks * spt <= usize::MAX,
            t <= geom.tracks,
            tracks.len() == t,
            forall|u: int| 0 <= u < t ==>
                #[trigger] tracks[u]@ == spec_track(data@, spt as int, u),
        decreases geom.tracks - t,
    {
        proof {
            assert(t * spt + spt <= geom.tracks * spt) by (nonlinear_arith)
                requires t < geom.tracks, spt > 0;
        }
        let start = t * spt;
        let mut track: Vec<u8> = Vec::with_capacity(spt);
        let mut j: usize = 0;
        while j < spt
            invariant
                start == t * spt,
                start + spt <= usize::MAX,
                j <= spt,
                track.len() == j,
                forall|k: int| 0 <= k < j ==>
                    #[trigger] track[k] == spec_track_byte(data@, spt as int, t as int, k),
            decreases spt - j,
        {
            let b = if start + j < data.len() { data[start + j] } else { 0 };
            track.push(b);
            j += 1;
        }
        proof {
            assert(track@ =~= spec_track(data@, spt as int, t as int));
        }
        tracks.push(track);
        t += 1;
    }
    tracks
}

} // verus!
