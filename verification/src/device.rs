//! One GPU: its identities, its per-CRTC surfaces, and the enumeration diff
//! that reconciles the hardware's connector/CRTC pairing with the surfaces
//! the backend already owns.

use vstd::prelude::*;
use crate::surface::Surface;
use crate::types::ConnectorInfo;
use crate::types::Mode;
use crate::types::OutputConfig;

verus! {

/// The client-facing resource endpoint of a device: identities of the two
/// advertised globals and the event-loop token of its listening source.
#[derive(Clone, Copy, PartialEq, Eq, Structural, Debug)]
pub struct Socket {
    pub dmabuf_global: u64,
    pub drm_global: u64,
    pub token: u64,
}

/// One GPU known to the backend: its mode-setting device identity, the GPU
/// identity that actually renders, whether atomic mode-setting is supported,
/// the surfaces keyed by CRTC, the event-loop token of its completion-event
/// stream, and the optional client-facing endpoint.
pub struct Device {
    pub node: u64,
    pub render_node: u64,
    pub supports_atomic: bool,
    pub surfaces: Vec<(u32, Surface)>,
    pub event_token: Option<u64>,
    pub socket: Option<Socket>,
}

/// The result of diffing a fresh hardware enumeration against the surfaces a
/// device already owns: `(CRTC, connector)` pairs newly paired, and CRTCs
/// whose pairing disappeared.
pub struct OutputChanges {
    pub added: Vec<(u32, u32)>,
    pub removed: Vec<u32>,
}

/// Whether some surface entry pairs `crtc` with `conn`.
pub open spec fn paired_in(surfaces: Seq<(u32, Surface)>, crtc: u32, conn: u32) -> bool {
    exists|k: int|
        0 <= k < surfaces.len() && (#[trigger] surfaces[k]).0 == crtc && surfaces[k].1.connector
            == conn
}

/// Whether the hardware enumeration `config` maps `conn` to `crtc`.
pub open spec fn config_has_pair(config: Seq<(u32, u32)>, conn: u32, crtc: u32) -> bool {
    exists|k: int| 0 <= k < config.len() && #[trigger] config[k] == (conn, crtc)
}

/// No connector occurs twice in the enumeration.
pub open spec fn config_conns_unique(config: Seq<(u32, u32)>) -> bool {
    forall|i: int, j: int|
        0 <= i < j < config.len() ==> (#[trigger] config[i]).0 != (#[trigger] config[j]).0
}

/// No CRTC occurs twice in the enumeration.
pub open spec fn config_crtcs_unique(config: Seq<(u32, u32)>) -> bool {
    forall|i: int, j: int|
        0 <= i < j < config.len() ==> (#[trigger] config[i]).1 != (#[trigger] config[j]).1
}

/// The `(CRTC, connector)` pairs of `config` that have no surface yet (or
/// whose CRTC currently carries a different connector), in enumeration order.
pub open spec fn diff_added(config: Seq<(u32, u32)>, surfaces: Seq<(u32, Surface)>) -> Seq<
    (u32, u32),
>
    decreases config.len(),
{
    if config.len() == 0 {
        Seq::empty()
    } else {
        let prefix = diff_added(config.drop_last(), surfaces);
        let p = config.last();
        if !paired_in(surfaces, p.1, p.0) {
            prefix.push((p.1, p.0))
        } else {
            prefix
        }
    }
}

/// The CRTCs of the surface entries whose connector pairing is gone from
/// `config`, in surface order.
pub open spec fn diff_removed(surfaces: Seq<(u32, Surface)>, config: Seq<(u32, u32)>) -> Seq<u32>
    decreases surfaces.len(),
{
    if surfaces.len() == 0 {
        Seq::empty()
    } else {
        let prefix = diff_removed(surfaces.drop_last(), config);
        let e = surfaces.last();
        if !config_has_pair(config, e.1.connector, e.0) {
            prefix.push(e.0)
        } else {
            prefix
        }
    }
}

/// The surface entries that survive a re-enumeration: their pairing is still
/// present in `config`.
pub open spec fn kept_surfaces(surfaces: Seq<(u32, Surface)>, config: Seq<(u32, u32)>) -> Seq<
    (u32, Surface),
>
    decreases surfaces.len(),
{
    if surfaces.len() == 0 {
        Seq::empty()
    } else {
        let prefix = kept_surfaces(surfaces.drop_last(), config);
        let e = surfaces.last();
        if config_has_pair(config, e.1.connector, e.0) {
            prefix.push(e)
        } else {
            prefix
        }
    }
}

/// The surface entries torn down by a re-enumeration: their pairing is gone
/// from `config`.
pub open spec fn removed_surfaces(surfaces: Seq<(u32, Surface)>, config: Seq<(u32, u32)>) -> Seq<
    (u32, Surface),
>
    decreases surfaces.len(),
{
    if surfaces.len() == 0 {
        Seq::empty()
    } else {
        let prefix = removed_surfaces(surfaces.drop_last(), config);
        let e = surfaces.last();
        if !config_has_pair(config, e.1.connector, e.0) {
            prefix.push(e)
        } else {
            prefix
        }
    }
}

/// Total width of the first `k` torn-down surfaces, each at its output's
/// current mode (surfaces with no current mode free no width).
pub open spec fn removed_width_sum(rem: Seq<(u32, Surface)>, k: int) -> int
    decreases k,
{
    if k <= 0 {
        0
    } else {
        removed_width_sum(rem, k - 1) + (match rem[k - 1].1.output.current_mode {
            Some(m) => m.width as int,
            None => 0,
        })
    }
}

/// `removed_width_sum` only reads the first `k` entries.
pub proof fn lemma_rws_agree(a: Seq<(u32, Surface)>, b: Seq<(u32, Surface)>, k: int)
    requires
        0 <= k <= a.len(),
        k <= b.len(),
        forall|l: int| 0 <= l < k ==> a[l] == b[l],
    ensures
        removed_width_sum(a, k) == removed_width_sum(b, k),
    decreases k,
{
    if k > 0 {
        lemma_rws_agree(a, b, k - 1);
    }
}

/// Partial freed-width sums never exceed the total.
pub proof fn lemma_rws_mono(rem: Seq<(u32, Surface)>, k: int, n: int)
    requires
        0 <= k <= n <= rem.len(),
    ensures
        removed_width_sum(rem, k) <= removed_width_sum(rem, n),
    decreases n - k,
{
    if k < n {
        lemma_rws_mono(rem, k, n - 1);
    }
}

/// One partition step extends the kept or the removed prefix by one entry.
pub proof fn lemma_partition_step(surfaces: Seq<(u32, Surface)>, config: Seq<(u32, u32)>, p: int)
    requires
        0 <= p < surfaces.len(),
    ensures
        kept_surfaces(surfaces.take(p + 1), config) == (if config_has_pair(
            config,
            surfaces[p].1.connector,
            surfaces[p].0,
        ) {
            kept_surfaces(surfaces.take(p), config).push(surfaces[p])
        } else {
            kept_surfaces(surfaces.take(p), config)
        }),
        removed_surfaces(surfaces.take(p + 1), config) == (if config_has_pair(
            config,
            surfaces[p].1.connector,
            surfaces[p].0,
        ) {
            removed_surfaces(surfaces.take(p), config)
        } else {
            removed_surfaces(surfaces.take(p), config).push(surfaces[p])
        }),
{
    assert(surfaces.take(p + 1).drop_last() =~= surfaces.take(p));
    assert(surfaces.take(p + 1).last() == surfaces[p]);
}

/// The removed prefix after `p` partition steps is a prefix of the final
/// removed sequence.
pub proof fn lemma_removed_prefix(surfaces: Seq<(u32, Surface)>, config: Seq<(u32, u32)>, p: int)
    requires
        0 <= p <= surfaces.len(),
    ensures
        removed_surfaces(surfaces.take(p), config).len() <= removed_surfaces(
            surfaces,
            config,
        ).len(),
        removed_surfaces(surfaces, config).take(
            removed_surfaces(surfaces.take(p), config).len() as int,
        ) == removed_surfaces(surfaces.take(p), config),
    decreases surfaces.len() - p,
{
    let full = removed_surfaces(surfaces, config);
    let cur = removed_surfaces(surfaces.take(p), config);
    if p == surfaces.len() {
        assert(surfaces.take(p) =~= surfaces);
        assert(full.take(full.len() as int) =~= full);
    } else {
        lemma_removed_prefix(surfaces, config, p + 1);
        let next = removed_surfaces(surfaces.take(p + 1), config);
        lemma_partition_step(surfaces, config, p);
        assert(full.take(cur.len() as int) =~= cur) by {
            assert(full.take(next.len() as int) == next);
            assert(forall|l: int| 0 <= l < next.len() ==> full[l] == #[trigger] next[l]) by {
                assert(forall|l: int|
                    0 <= l < next.len() ==> #[trigger] full.take(next.len() as int)[l] == full[l]);
            }
            assert(forall|l: int| 0 <= l < cur.len() ==> next[l] == cur[l]);
        }
    }
}

/// Every kept entry is an entry of the original surfaces whose pairing the
/// enumeration still holds.
pub proof fn lemma_kept_surfaces_elems(surfaces: Seq<(u32, Surface)>, config: Seq<(u32, u32)>)
    ensures
        forall|q: int|
            #![trigger kept_surfaces(surfaces, config)[q]]
            0 <= q < kept_surfaces(surfaces, config).len() ==> (exists|k: int|
                0 <= k < surfaces.len() && #[trigger] surfaces[k] == kept_surfaces(
                    surfaces,
                    config,
                )[q]) && config_has_pair(
                config,
                kept_surfaces(surfaces, config)[q].1.connector,
                kept_surfaces(surfaces, config)[q].0,
            ),
    decreases surfaces.len(),
{
    if surfaces.len() > 0 {
        lemma_kept_surfaces_elems(surfaces.drop_last(), config);
        let full = kept_surfaces(surfaces, config);
        let prefix = kept_surfaces(surfaces.drop_last(), config);
        assert forall|q: int| #![trigger full[q]] 0 <= q < full.len() implies (exists|k: int|
            0 <= k < surfaces.len() && #[trigger] surfaces[k] == full[q]) && config_has_pair(
            config,
            full[q].1.connector,
            full[q].0,
        ) by {
            if q < prefix.len() {
                assert(full[q] == prefix[q]);
                let k = choose|k: int|
                    0 <= k < surfaces.drop_last().len() && #[trigger] surfaces.drop_last()[k]
                        == prefix[q];
                assert(surfaces[k] == full[q]);
            } else {
                assert(full[q] == surfaces[surfaces.len() - 1]);
            }
        }
    }
}

/// Every removed entry is an entry of the original surfaces whose pairing is
/// gone from the enumeration.
pub proof fn lemma_removed_surfaces_elems(surfaces: Seq<(u32, Surface)>, config: Seq<(u32, u32)>)
    ensures
        forall|q: int|
            #![trigger removed_surfaces(surfaces, config)[q]]
            0 <= q < removed_surfaces(surfaces, config).len() ==> (exists|k: int|
                0 <= k < surfaces.len() && #[trigger] surfaces[k] == removed_surfaces(
                    surfaces,
                    config,
                )[q]) && !config_has_pair(
                config,
                removed_surfaces(surfaces, config)[q].1.connector,
                removed_surfaces(surfaces, config)[q].0,
            ),
    decreases surfaces.len(),
{
    if surfaces.len() > 0 {
        lemma_removed_surfaces_elems(surfaces.drop_last(), config);
        let full = removed_surfaces(surfaces, config);
        let prefix = removed_surfaces(surfaces.drop_last(), config);
        assert forall|q: int| #![trigger full[q]] 0 <= q < full.len() implies (exists|k: int|
            0 <= k < surfaces.len() && #[trigger] surfaces[k] == full[q]) && !config_has_pair(
            config,
            full[q].1.connector,
            full[q].0,
        ) by {
            if q < prefix.len() {
                assert(full[q] == prefix[q]);
                let k = choose|k: int|
                    0 <= k < surfaces.drop_last().len() && #[trigger] surfaces.drop_last()[k]
                        == prefix[q];
                assert(surfaces[k] == full[q]);
            } else {
                assert(full[q] == surfaces[surfaces.len() - 1]);
            }
        }
    }
}

/// Keeping surfaces preserves CRTC and connector uniqueness.
pub proof fn lemma_kept_surfaces_unique(surfaces: Seq<(u32, Surface)>, config: Seq<(u32, u32)>)
    requires
        forall|i: int, j: int|
            0 <= i < j < surfaces.len() ==> (#[trigger] surfaces[i]).0 != (
            #[trigger] surfaces[j]).0,
        forall|i: int, j: int|
            0 <= i < j < surfaces.len() ==> (#[trigger] surfaces[i]).1.connector != (
            #[trigger] surfaces[j]).1.connector,
    ensures
        forall|i: int, j: int|
            0 <= i < j < kept_surfaces(surfaces, config).len() ==> (#[trigger] kept_surfaces(
                surfaces,
                config,
            )[i]).0 != (#[trigger] kept_surfaces(surfaces, config)[j]).0,
        forall|i: int, j: int|
            0 <= i < j < kept_surfaces(surfaces, config).len() ==> (#[trigger] kept_surfaces(
                surfaces,
                config,
            )[i]).1.connector != (#[trigger] kept_surfaces(surfaces, config)[j]).1.connector,
    decreases surfaces.len(),
{
    if surfaces.len() > 0 {
        lemma_kept_surfaces_unique(surfaces.drop_last(), config);
        lemma_kept_surfaces_elems(surfaces.drop_last(), config);
        let full = kept_surfaces(surfaces, config);
        let prefix = kept_surfaces(surfaces.drop_last(), config);
        let last = surfaces[surfaces.len() - 1];
        assert forall|i: int, j: int| 0 <= i < j < full.len() implies (#[trigger] full[i]).0 != (
        #[trigger] full[j]).0 && full[i].1.connector != full[j].1.connector by {
            if j < prefix.len() {
                assert(full[i] == prefix[i] && full[j] == prefix[j]);
            } else if j == prefix.len() && full.len() > prefix.len() {
                assert(full[j] == last);
                assert(full[i] == prefix[i]);
                let k = choose|k: int|
                    0 <= k < surfaces.drop_last().len() && #[trigger] surfaces.drop_last()[k]
                        == prefix[i];
                assert(surfaces[k] == prefix[i]);
                assert(k < surfaces.len() - 1);
                assert(surfaces[k].0 != last.0);
                assert(surfaces[k].1.connector != last.1.connector);
            }
        }
    }
}

/// Whether some mode in the sequence is driver-flagged preferred.
pub open spec fn has_preferred(modes: Seq<Mode>) -> bool {
    exists|i: int| 0 <= i < modes.len() && (#[trigger] modes[i]).preferred
}

/// Index of the first driver-flagged preferred mode.
pub open spec fn first_preferred_idx(modes: Seq<Mode>) -> int
    decreases modes.len(),
{
    if modes.len() == 0 {
        0
    } else if modes[0].preferred {
        0
    } else {
        1 + first_preferred_idx(modes.skip(1))
    }
}

/// The mode a fresh surface starts in: the mode already programmed on the
/// CRTC if any, else the first driver-flagged preferred mode, else the first
/// advertised mode.
pub open spec fn setup_mode(info: ConnectorInfo) -> Mode {
    match info.current_mode {
        Some(m) => m,
        None => if has_preferred(info.modes@) {
            info.modes@[first_preferred_idx(info.modes@)]
        } else {
            info.modes@[0]
        },
    }
}

/// What a surface fresh out of [`Device::setup_surface`] looks like, given
/// the connector, the driver's connector report, the assigned position and
/// the assigned output identity.
pub open spec fn surface_matches(
    s: Surface,
    conn: u32,
    info: ConnectorInfo,
    pos_x: i32,
    pos_y: i32,
    id: u64,
) -> bool {
    let m = setup_mode(info);
    &&& s.connector == conn
    &&& s.swapchain is None
    &&& s.last_render is None
    &&& s.last_submit is None
    &&& s.refresh_mhz == m.refresh_mhz
    &&& s.vrr == info.vrr_on
    &&& s.pending == false
    &&& s.render_timer is None
    &&& s.output.id == id
    &&& s.output.name@ == info.interface@
    &&& s.output.make@ == info.manufacturer@
    &&& s.output.model@ == info.model@
    &&& s.output.phys_w == info.phys_w
    &&& s.output.phys_h == info.phys_h
    &&& s.output.modes@ == info.modes@
    &&& s.output.preferred_mode == m
    &&& s.output.current_mode == Some(m)
    &&& s.output.pos_x == pos_x
    &&& s.output.pos_y == pos_y
    &&& s.output.config == (OutputConfig {
        enabled: true,
        mode_w: m.width,
        mode_h: m.height,
        refresh_target_mhz: m.refresh_mhz,
        vrr: info.vrr_on,
        pos_x: pos_x,
        pos_y: pos_y,
    })
}

impl Device {
    /// Whether some surface is keyed by `crtc`.
    pub open spec fn has_crtc(self, crtc: u32) -> bool {
        exists|k: int| 0 <= k < self.surfaces@.len() && (#[trigger] self.surfaces@[k]).0 == crtc
    }

    /// Whether some surface owns `conn`.
    pub open spec fn has_connector(self, conn: u32) -> bool {
        exists|k: int|
            0 <= k < self.surfaces@.len() && (#[trigger] self.surfaces@[k]).1.connector == conn
    }

    /// Every CRTC keys at most one surface.
    pub open spec fn crtcs_unique(self) -> bool {
        forall|i: int, j: int|
            0 <= i < j < self.surfaces@.len() ==> (#[trigger] self.surfaces@[i]).0 != (
            #[trigger] self.surfaces@[j]).0
    }

    /// Every connector belongs to at most one surface.
    pub open spec fn connectors_unique(self) -> bool {
        forall|i: int, j: int|
            0 <= i < j < self.surfaces@.len() ==> (#[trigger] self.surfaces@[i]).1.connector != (
            #[trigger] self.surfaces@[j]).1.connector
    }

    /// Every surface obeys the single-flight render discipline.
    pub open spec fn surfaces_wf(self) -> bool {
        forall|i: int| 0 <= i < self.surfaces@.len() ==> (#[trigger] self.surfaces@[i]).1.wf()
    }

    /// Whether this device stores event-loop token `t` anywhere: as its
    /// event-stream token, its endpoint's token, or a surface's render timer.
    pub open spec fn uses_token(self, t: u64) -> bool {
        ||| self.event_token == Some(t)
        ||| (self.socket matches Some(s) && s.token == t)
        ||| exists|j: int|
            0 <= j < self.surfaces@.len() && (#[trigger] self.surfaces@[j]).1.render_timer == Some(
                t,
            )
    }

    /// All tokens stored in this device are pairwise distinct.
    pub open spec fn tokens_distinct(self) -> bool {
        &&& (self.event_token matches Some(t) ==> !(self.socket matches Some(s) && s.token == t)
            && forall|j: int|
            0 <= j < self.surfaces@.len() ==> (#[trigger] self.surfaces@[j]).1.render_timer != Some(
                t,
            ))
        &&& (self.socket matches Some(s) ==> forall|j: int|
            0 <= j < self.surfaces@.len() ==> (#[trigger] self.surfaces@[j]).1.render_timer != Some(
                s.token,
            ))
        &&& forall|j1: int, j2: int|
            0 <= j1 < j2 < self.surfaces@.len() ==> !((#[trigger] self.surfaces@[j1]).1.render_timer
                is Some && self.surfaces@[j1].1.render_timer == (
            #[trigger] self.surfaces@[j2]).1.render_timer)
    }

    /// The per-device invariant: one connector per CRTC, no duplicate
    /// connectors across CRTCs, well-formed surfaces, distinct tokens.
    pub open spec fn wf(self) -> bool {
        &&& self.crtcs_unique()
        &&& self.connectors_unique()
        &&& self.surfaces_wf()
        &&& self.tokens_distinct()
    }

    /// Find the surface keyed by `crtc`.
    pub fn crtc_index(&self, crtc: u32) -> (r: Option<usize>)
        ensures
            match r {
                Some(j) => 0 <= j < self.surfaces@.len() && self.surfaces@[j as int].0 == crtc,
                None => !self.has_crtc(crtc),
            },
    {
        let mut j: usize = 0;
        while j < self.surfaces.len()
            invariant
                0 <= j <= self.surfaces@.len(),
                forall|k: int| 0 <= k < j ==> (#[trigger] self.surfaces@[k]).0 != crtc,
            decreases self.surfaces@.len() - j,
        {
            if self.surfaces[j].0 == crtc {
                return Some(j);
            }
            j = j + 1;
        }
        assert(!self.has_crtc(crtc)) by {
            if self.has_crtc(crtc) {
                let k = choose|k: int|
                    0 <= k < self.surfaces@.len() && (#[trigger] self.surfaces@[k]).0 == crtc;
            }
        }
        None
    }

    /// Whether some surface entry pairs `crtc` with `conn` (executable form
    /// of [`paired_in`]).
    pub fn is_paired(&self, crtc: u32, conn: u32) -> (r: bool)
        ensures
            r == paired_in(self.surfaces@, crtc, conn),
    {
        let mut k: usize = 0;
        while k < self.surfaces.len()
            invariant
                0 <= k <= self.surfaces@.len(),
                forall|j: int|
                    0 <= j < k ==> !((#[trigger] self.surfaces@[j]).0 == crtc
                        && self.surfaces@[j].1.connector == conn),
            decreases self.surfaces@.len() - k,
        {
            if self.surfaces[k].0 == crtc && self.surfaces[k].1.connector == conn {
                return true;
            }
            k = k + 1;
        }
        false
    }

    /// Diff a fresh hardware enumeration (`config`, as connector/CRTC pairs)
    /// against the surfaces this device owns.  A pairing is added when its
    /// CRTC has no surface or its surface carries a different connector; a
    /// surface is removed when its pairing is gone.  No side effects.
    pub fn enumerate_surfaces(&self, config: &Vec<(u32, u32)>) -> (r: OutputChanges)
        ensures
            r.added@ == diff_added(config@, self.surfaces@),
            r.removed@ == diff_removed(self.surfaces@, config@),
    {
        let mut added: Vec<(u32, u32)> = Vec::new();
        let mut i: usize = 0;
        proof {
            assert(config@.take(0) =~= Seq::<(u32, u32)>::empty());
        }
        while i < config.len()
            invariant
                0 <= i <= config@.len(),
                added@ == diff_added(config@.take(i as int), self.surfaces@),
            decreases config@.len() - i,
        {
            let (conn, crtc) = config[i];
            proof {
                assert(config@.take(i + 1).drop_last() =~= config@.take(i as int));
                assert(config@.take(i + 1).last() == config@[i as int]);
            }
            if !self.is_paired(crtc, conn) {
                added.push((crtc, conn));
            }
            i = i + 1;
        }
        proof {
            assert(config@.take(config@.len() as int) =~= config@);
        }
        let mut removed: Vec<u32> = Vec::new();
        let mut k: usize = 0;
        proof {
            assert(self.surfaces@.take(0) =~= Seq::<(u32, Surface)>::empty());
        }
        while k < self.surfaces.len()
            invariant
                0 <= k <= self.surfaces@.len(),
                removed@ == diff_removed(self.surfaces@.take(k as int), config@),
            decreases self.surfaces@.len() - k,
        {
            let crtc = self.surfaces[k].0;
            let conn = self.surfaces[k].1.connector;
            proof {
                assert(self.surfaces@.take(k + 1).drop_last() =~= self.surfaces@.take(k as int));
                assert(self.surfaces@.take(k + 1).last() == self.surfaces@[k as int]);
            }
            if !config_contains(config, conn, crtc) {
                removed.push(crtc);
            }
            k = k + 1;
        }
        proof {
            assert(self.surfaces@.take(self.surfaces@.len() as int) =~= self.surfaces@);
        }
        OutputChanges { added, removed }
    }

    /// Create a surface for a fresh CRTC/connector pairing from the driver's
    /// connector report, publish-ready: the active mode is the CRTC's current
    /// mode, else the first preferred mode, else the first advertised mode;
    /// the logical output exposes every advertised mode and sits at the given
    /// position; no swapchain exists yet.
    pub fn setup_surface(
        &mut self,
        crtc: u32,
        conn: u32,
        pos_x: i32,
        pos_y: i32,
        info: &ConnectorInfo,
        output_id: u64,
    )
        requires
            old(self).wf(),
            !old(self).has_crtc(crtc),
            !old(self).has_connector(conn),
            info.modes@.len() > 0,
        ensures
            final(self).wf(),
            final(self).surfaces@.len() == old(self).surfaces@.len() + 1,
            final(self).surfaces@[old(self).surfaces@.len() as int].0 == crtc,
            surface_matches(
                final(self).surfaces@[old(self).surfaces@.len() as int].1,
                conn,
                *info,
                pos_x,
                pos_y,
                output_id,
            ),
            forall|k: int|
                0 <= k < old(self).surfaces@.len() ==> final(self).surfaces@[k] == old(
                    self,
                ).surfaces@[k],
            final(self).node == old(self).node,
            final(self).render_node == old(self).render_node,
            final(self).supports_atomic == old(self).supports_atomic,
            final(self).event_token == old(self).event_token,
            final(self).socket == old(self).socket,
            forall|t: u64| final(self).uses_token(t) <==> old(self).uses_token(t),
    {
        let m = find_setup_mode(info);
        let mut modes: Vec<Mode> = Vec::new();
        let mut i: usize = 0;
        while i < info.modes.len()
            invariant
                0 <= i <= info.modes@.len(),
                modes@ == info.modes@.take(i as int),
            decreases info.modes@.len() - i,
        {
            modes.push(info.modes[i]);
            proof {
                assert(modes@ =~= info.modes@.take(i + 1));
            }
            i = i + 1;
        }
        proof {
            assert(info.modes@.take(info.modes@.len() as int) =~= info.modes@);
        }
        let output = crate::types::Output {
            id: output_id,
            name: info.interface.clone(),
            make: info.manufacturer.clone(),
            model: info.model.clone(),
            phys_w: info.phys_w,
            phys_h: info.phys_h,
            modes,
            preferred_mode: m,
            current_mode: Some(m),
            pos_x,
            pos_y,
            config: OutputConfig {
                enabled: true,
                mode_w: m.width,
                mode_h: m.height,
                refresh_target_mhz: m.refresh_mhz,
                vrr: info.vrr_on,
                pos_x,
                pos_y,
            },
        };
        let s = Surface {
            connector: conn,
            output,
            swapchain: None,
            last_render: None,
            last_submit: None,
            refresh_mhz: m.refresh_mhz,
            vrr: info.vrr_on,
            pending: false,
            render_timer: None,
        };
        self.surfaces.push((crtc, s));
        proof {
            let n = old(self).surfaces@.len() as int;
            assert(forall|k: int| 0 <= k < n ==> self.surfaces@[k] == old(self).surfaces@[k]);
            assert forall|t: u64| final(self).uses_token(t) <==> old(self).uses_token(t) by {
                if self.uses_token(t) && !old(self).uses_token(t) {
                    let j = choose|j: int|
                        0 <= j < self.surfaces@.len() && (#[trigger] self.surfaces@[j]).1.render_timer
                            == Some(t);
                    assert(j == n);
                }
                if old(self).uses_token(t) {
                    if exists|j: int|
                        0 <= j < old(self).surfaces@.len() && (
                        #[trigger] old(self).surfaces@[j]).1.render_timer == Some(t) {
                        let j = choose|j: int|
                            0 <= j < old(self).surfaces@.len() && (
                            #[trigger] old(self).surfaces@[j]).1.render_timer == Some(t);
                        assert(self.surfaces@[j].1.render_timer == Some(t));
                    }
                }
            }
        }
    }
}

/// Whether the enumeration `config` maps `conn` to `crtc` (executable form of
/// [`config_has_pair`]).
pub fn config_contains(config: &Vec<(u32, u32)>, conn: u32, crtc: u32) -> (r: bool)
    ensures
        r == config_has_pair(config@, conn, crtc),
{
    let mut k: usize = 0;
    while k < config.len()
        invariant
            0 <= k <= config@.len(),
            forall|j: int| 0 <= j < k ==> #[trigger] config@[j] != (conn, crtc),
        decreases config@.len() - k,
    {
        if config[k].0 == conn && config[k].1 == crtc {
            assert(config@[k as int] == (conn, crtc));
            return true;
        }
        k = k + 1;
    }
    false
}

/// The mode a fresh surface starts in (executable form of [`setup_mode`]).
pub fn find_setup_mode(info: &ConnectorInfo) -> (m: Mode)
    requires
        info.modes@.len() > 0,
    ensures
        m == setup_mode(*info),
{
    if let Some(m) = info.current_mode {
        return m;
    }
    let mut i: usize = 0;
    while i < info.modes.len()
        invariant
            0 <= i <= info.modes@.len(),
            info.current_mode is None,
            forall|j: int| 0 <= j < i ==> !(#[trigger] info.modes@[j]).preferred,
        decreases info.modes@.len() - i,
    {
        if info.modes[i].preferred {
            proof {
                lemma_first_preferred(info.modes@, i as int);
            }
            return info.modes[i];
        }
        i = i + 1;
    }
    assert(!has_preferred(info.modes@)) by {
        if has_preferred(info.modes@) {
            let j = choose|j: int| 0 <= j < info.modes@.len() && (#[trigger] info.modes@[j]).preferred;
        }
    }
    info.modes[0]
}

/// If `modes[i]` is preferred and nothing before it is, then `i` is the first
/// preferred index.
proof fn lemma_first_preferred(modes: Seq<Mode>, i: int)
    requires
        0 <= i < modes.len(),
        modes[i].preferred,
        forall|j: int| 0 <= j < i ==> !(#[trigger] modes[j]).preferred,
    ensures
        has_preferred(modes),
        first_preferred_idx(modes) == i,
    decreases i,
{
    if i == 0 {
    } else {
        assert(!modes[0].preferred);
        assert(forall|j: int| 0 <= j < i - 1 ==> !(#[trigger] modes.skip(1)[j]).preferred) by {
            assert(forall|j: int| 0 <= j < i - 1 ==> modes.skip(1)[j] == modes[j + 1]);
        }
        assert(modes.skip(1)[i - 1] == modes[i]);
        lemma_first_preferred(modes.skip(1), i - 1);
    }
}

} // verus!
