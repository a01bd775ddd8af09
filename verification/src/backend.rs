//! The backend's root state: the registry of devices, the primary GPU, the
//! session flag, the event-loop registration model and the output-identity
//! counter — together with the verified lifecycle, configuration and render
//! scheduling operations.

use vstd::prelude::*;
use crate::device::config_conns_unique;
use crate::device::config_crtcs_unique;
use crate::device::config_contains;
use crate::device::config_has_pair;
use crate::device::kept_surfaces;
use crate::device::lemma_kept_surfaces_elems;
use crate::device::lemma_kept_surfaces_unique;
use crate::device::lemma_partition_step;
use crate::device::lemma_removed_prefix;
use crate::device::lemma_removed_surfaces_elems;
use crate::device::lemma_rws_agree;
use crate::device::lemma_rws_mono;
use crate::device::paired_in;
use crate::device::removed_surfaces;
use crate::device::removed_width_sum;
use crate::device::setup_mode;
use crate::device::surface_matches;
use crate::device::Device;
use crate::device::Socket;
use crate::registry::LoopRegistry;
use crate::types::ConnectorInfo;
use crate::types::Output;
use crate::select::best_mode_idx;
use crate::select::has_size_match;
use crate::select::lemma_best_mode_idx_unique;
use crate::select::select_mode;
use crate::surface::Surface;
use crate::surface::Swapchain;
use crate::types::ApplyResult;
use crate::types::ConfigError;

verus! {

/// The hot-plug pairings that actually get a surface: each `(connector,
/// CRTC)` enumeration entry that is not already paired in `base` and whose
/// connector report the driver could gather, as `((CRTC, connector),
/// report)`, in enumeration order.  Entries whose report is missing are
/// skipped (that output failed setup and is dropped, its siblings
/// continue).
pub open spec fn kept_setups(
    config: Seq<(u32, u32)>,
    infos: Seq<Option<ConnectorInfo>>,
    base: Seq<(u32, Surface)>,
) -> Seq<((u32, u32), ConnectorInfo)>
    decreases config.len(),
{
    if config.len() == 0 {
        Seq::empty()
    } else {
        let prefix = kept_setups(config.drop_last(), infos.drop_last(), base);
        let p = config.last();
        if paired_in(base, p.1, p.0) {
            prefix
        } else {
            match infos.last() {
                Some(info) => prefix.push((((p.1, p.0)), info)),
                None => prefix,
            }
        }
    }
}

/// Total width of the first `k` surfaces created from `kept`, each in its
/// starting mode: the horizontal space they occupy left-to-right.
pub open spec fn width_sum(kept: Seq<((u32, u32), ConnectorInfo)>, k: int) -> int
    decreases k,
{
    if k <= 0 {
        0
    } else {
        width_sum(kept, k - 1) + setup_mode(kept[k - 1].1).width
    }
}

/// `width_sum` only reads the first `k` entries.
proof fn lemma_width_sum_agree(
    a: Seq<((u32, u32), ConnectorInfo)>,
    b: Seq<((u32, u32), ConnectorInfo)>,
    k: int,
)
    requires
        0 <= k <= a.len(),
        k <= b.len(),
        forall|l: int| 0 <= l < k ==> a[l] == b[l],
    ensures
        width_sum(a, k) == width_sum(b, k),
    decreases k,
{
    if k > 0 {
        lemma_width_sum_agree(a, b, k - 1);
    }
}

/// Partial width sums never exceed the total.
proof fn lemma_width_sum_mono(kept: Seq<((u32, u32), ConnectorInfo)>, k: int, n: int)
    requires
        0 <= k <= n <= kept.len(),
    ensures
        width_sum(kept, k) <= width_sum(kept, n),
    decreases n - k,
{
    if k < n {
        lemma_width_sum_mono(kept, k, n - 1);
        assert(setup_mode(kept[n - 1].1).width >= 0);
    }
}

/// Width sums are never negative.
proof fn lemma_width_sum_nonneg(kept: Seq<((u32, u32), ConnectorInfo)>, k: int)
    requires
        0 <= k <= kept.len(),
    ensures
        width_sum(kept, k) >= 0,
    decreases k,
{
    if k > 0 {
        lemma_width_sum_nonneg(kept, k - 1);
    }
}

/// One enumeration step extends the kept prefix by at most one entry.
proof fn lemma_kept_setups_step(
    config: Seq<(u32, u32)>,
    infos: Seq<Option<ConnectorInfo>>,
    base: Seq<(u32, Surface)>,
    i: int,
)
    requires
        config.len() == infos.len(),
        0 <= i < config.len(),
    ensures
        kept_setups(config.take(i + 1), infos.take(i + 1), base) == (if paired_in(
            base,
            config[i].1,
            config[i].0,
        ) {
            kept_setups(config.take(i), infos.take(i), base)
        } else {
            match infos[i] {
                Some(info) => kept_setups(config.take(i), infos.take(i), base).push(
                    ((config[i].1, config[i].0), info),
                ),
                None => kept_setups(config.take(i), infos.take(i), base),
            }
        }),
{
    assert(config.take(i + 1).drop_last() =~= config.take(i));
    assert(infos.take(i + 1).drop_last() =~= infos.take(i));
    assert(config.take(i + 1).last() == config[i]);
    assert(infos.take(i + 1).last() == infos[i]);
}

/// The kept prefix after `i` enumeration steps is a prefix of the final
/// kept sequence.
proof fn lemma_kept_setups_prefix(
    config: Seq<(u32, u32)>,
    infos: Seq<Option<ConnectorInfo>>,
    base: Seq<(u32, Surface)>,
    i: int,
)
    requires
        config.len() == infos.len(),
        0 <= i <= config.len(),
    ensures
        kept_setups(config.take(i), infos.take(i), base).len() <= kept_setups(
            config,
            infos,
            base,
        ).len(),
        kept_setups(config, infos, base).take(
            kept_setups(config.take(i), infos.take(i), base).len() as int,
        ) == kept_setups(config.take(i), infos.take(i), base),
    decreases config.len() - i,
{
    let full = kept_setups(config, infos, base);
    let cur = kept_setups(config.take(i), infos.take(i), base);
    if i == config.len() {
        assert(config.take(i) =~= config);
        assert(infos.take(i) =~= infos);
        assert(full.take(full.len() as int) =~= full);
    } else {
        lemma_kept_setups_prefix(config, infos, base, i + 1);
        let next = kept_setups(config.take(i + 1), infos.take(i + 1), base);
        lemma_kept_setups_step(config, infos, base, i);
        assert(full.take(cur.len() as int) =~= cur) by {
            assert(full.take(next.len() as int) == next);
            assert(forall|l: int| 0 <= l < next.len() ==> full[l] == next[l]) by {
                assert(forall|l: int|
                    0 <= l < next.len() ==> #[trigger] full.take(next.len() as int)[l] == full[l]);
            }
            assert(forall|l: int| 0 <= l < cur.len() ==> next[l] == cur[l]);
        }
    }
}

/// Every kept entry stems from an enumeration entry with the same index
/// bound: its pairing occurs in the enumeration prefix it was built from.
proof fn lemma_kept_setups_from_config(
    config: Seq<(u32, u32)>,
    infos: Seq<Option<ConnectorInfo>>,
    base: Seq<(u32, Surface)>,
)
    requires
        config.len() == infos.len(),
    ensures
        forall|q: int|
            #![trigger kept_setups(config, infos, base)[q]]
            0 <= q < kept_setups(config, infos, base).len() ==> (exists|k: int|
                0 <= k < config.len() && #[trigger] config[k] == (
                    kept_setups(config, infos, base)[q].0.1,
                    kept_setups(config, infos, base)[q].0.0,
                )) && !paired_in(
                base,
                kept_setups(config, infos, base)[q].0.0,
                kept_setups(config, infos, base)[q].0.1,
            ),
    decreases config.len(),
{
    if config.len() > 0 {
        lemma_kept_setups_from_config(config.drop_last(), infos.drop_last(), base);
        let full = kept_setups(config, infos, base);
        let prefix = kept_setups(config.drop_last(), infos.drop_last(), base);
        assert forall|q: int| #![trigger full[q]] 0 <= q < full.len() implies (exists|k: int|
            0 <= k < config.len() && #[trigger] config[k] == (full[q].0.1, full[q].0.0))
            && !paired_in(base, full[q].0.0, full[q].0.1) by {
            if q < prefix.len() {
                assert(full[q] == prefix[q]);
                let k = choose|k: int|
                    0 <= k < config.drop_last().len() && #[trigger] config.drop_last()[k] == (
                        prefix[q].0.1,
                        prefix[q].0.0,
                    );
                assert(config[k] == (full[q].0.1, full[q].0.0));
            } else {
                assert(infos.last() is Some);
                assert(!paired_in(base, config.last().1, config.last().0));
                assert(full[q] == (((config.last().1, config.last().0)), infos.last().unwrap()));
                assert(config[config.len() - 1] == (full[q].0.1, full[q].0.0));
            }
        }
    }
}

/// One setup step of an enumeration pass: the kept prefix grows by the new
/// entry, the width accumulator grows by the new surface's starting width,
/// and both stay within the bounds of the full pass.
proof fn lemma_setup_step_bounds(
    config: Seq<(u32, u32)>,
    infos: Seq<Option<ConnectorInfo>>,
    base: Seq<(u32, Surface)>,
    idx: int,
)
    requires
        config.len() == infos.len(),
        0 <= idx < config.len(),
        infos[idx] is Some,
        !paired_in(base, config[idx].1, config[idx].0),
    ensures
        kept_setups(config.take(idx + 1), infos.take(idx + 1), base) == kept_setups(
            config.take(idx),
            infos.take(idx),
            base,
        ).push(((config[idx].1, config[idx].0), infos[idx].unwrap())),
        kept_setups(config.take(idx + 1), infos.take(idx + 1), base).len() <= kept_setups(
            config,
            infos,
            base,
        ).len(),
        kept_setups(config.take(idx), infos.take(idx), base).len() <= idx,
        width_sum(
            kept_setups(config.take(idx + 1), infos.take(idx + 1), base),
            kept_setups(config.take(idx + 1), infos.take(idx + 1), base).len() as int,
        ) == width_sum(
            kept_setups(config.take(idx), infos.take(idx), base),
            kept_setups(config.take(idx), infos.take(idx), base).len() as int,
        ) + setup_mode(infos[idx].unwrap()).width,
        width_sum(
            kept_setups(config.take(idx + 1), infos.take(idx + 1), base),
            kept_setups(config.take(idx + 1), infos.take(idx + 1), base).len() as int,
        ) <= width_sum(
            kept_setups(config, infos, base),
            kept_setups(config, infos, base).len() as int,
        ),
        forall|k: int|
            0 <= k <= kept_setups(config.take(idx), infos.take(idx), base).len() ==> width_sum(
                kept_setups(config.take(idx), infos.take(idx), base),
                k,
            ) == width_sum(kept_setups(config.take(idx + 1), infos.take(idx + 1), base), k),
        width_sum(
            kept_setups(config.take(idx), infos.take(idx), base),
            kept_setups(config.take(idx), infos.take(idx), base).len() as int,
        ) >= 0,
{
    let kcur = kept_setups(config.take(idx), infos.take(idx), base);
    let knext = kept_setups(config.take(idx + 1), infos.take(idx + 1), base);
    let kfull = kept_setups(config, infos, base);
    lemma_kept_setups_step(config, infos, base, idx);
    lemma_kept_setups_len(config.take(idx), infos.take(idx), base);
    assert(config.take(idx).len() == idx);
    lemma_kept_setups_prefix(config, infos, base, idx + 1);
    assert(forall|l: int| 0 <= l < knext.len() ==> kfull[l] == #[trigger] knext[l]) by {
        assert(forall|l: int|
            0 <= l < knext.len() ==> #[trigger] kfull.take(knext.len() as int)[l] == kfull[l]);
    }
    lemma_width_sum_agree(knext, kfull, knext.len() as int);
    lemma_width_sum_mono(kfull, knext.len() as int, kfull.len() as int);
    lemma_width_sum_nonneg(kcur, kcur.len() as int);
    assert forall|k: int| 0 <= k <= kcur.len() implies width_sum(kcur, k) == width_sum(
        knext,
        k,
    ) by {
        lemma_width_sum_agree(kcur, knext, k);
    }
}

/// A kept sequence is never longer than the enumeration it came from.
proof fn lemma_kept_setups_len(
    config: Seq<(u32, u32)>,
    infos: Seq<Option<ConnectorInfo>>,
    base: Seq<(u32, Surface)>,
)
    requires
        config.len() == infos.len(),
    ensures
        kept_setups(config, infos, base).len() <= config.len(),
    decreases config.len(),
{
    if config.len() > 0 {
        lemma_kept_setups_len(config.drop_last(), infos.drop_last(), base);
    }
}

/// After appending one well-formed device whose identity, tokens and output
/// identities are all fresh, the backend invariant still holds.
proof fn lemma_wf_after_device_push(pre: KmsState, post: KmsState, dev: Device)
    requires
        pre.wf(),
        post.devices@ == pre.devices@.push(dev),
        !pre.has_device(dev.node),
        dev.wf(),
        forall|t: u64|
            #[trigger] dev.uses_token(t) ==> post.loop_reg.is_registered(t)
                && !pre.loop_reg.is_registered(t),
        post.loop_reg.wf(),
        forall|t: u64| pre.loop_reg.is_registered(t) ==> post.loop_reg.is_registered(t),
        forall|j: int|
            0 <= j < dev.surfaces@.len() ==> (#[trigger] dev.surfaces@[j]).1.output.id
                >= pre.next_output_id && dev.surfaces@[j].1.output.id < post.next_output_id,
        forall|j1: int, j2: int|
            0 <= j1 < j2 < dev.surfaces@.len() ==> (#[trigger] dev.surfaces@[j1]).1.output.id != (
            #[trigger] dev.surfaces@[j2]).1.output.id,
        post.next_output_id >= pre.next_output_id,
    ensures
        post.wf(),
{
    let n = pre.devices@.len() as int;
    assert(forall|i: int| 0 <= i < n ==> post.devices@[i] == pre.devices@[i]);
    assert(post.devices@[n] == dev);
    assert(post.nodes_unique()) by {
        assert forall|i: int, j: int|
            0 <= i < j < post.devices@.len() implies (#[trigger] post.devices@[i]).node != (
        #[trigger] post.devices@[j]).node by {
            if j == n {
                if post.devices@[i].node == dev.node {
                    assert(pre.devices@[i].node == dev.node);
                }
            }
        }
    }
    assert(post.tokens_registered()) by {
        assert forall|i: int, t: u64|
            0 <= i < post.devices@.len() && (#[trigger] post.devices@[i].uses_token(t)) implies post
            .loop_reg.is_registered(t) by {
            if i < n {
                assert(pre.devices@[i].uses_token(t));
            }
        }
    }
    assert(post.tokens_device_unique()) by {
        assert forall|i1: int, i2: int, t: u64|
            0 <= i1 < post.devices@.len() && 0 <= i2 < post.devices@.len() && (
            #[trigger] post.devices@[i1].uses_token(t)) && (
            #[trigger] post.devices@[i2].uses_token(t)) implies i1 == i2 by {
            if i1 != i2 {
                if i1 < n && i2 < n {
                    assert(pre.devices@[i1].uses_token(t));
                    assert(pre.devices@[i2].uses_token(t));
                } else {
                    let io = if i1 == n {
                        i2
                    } else {
                        i1
                    };
                    assert(pre.devices@[io].uses_token(t));
                    assert(pre.loop_reg.is_registered(t));
                    assert(dev.uses_token(t));
                }
            }
        }
    }
    assert(post.output_ids_fresh()) by {
        assert forall|i: int, j: int|
            0 <= i < post.devices@.len() && 0 <= j < post.devices@[i].surfaces@.len() implies (
        #[trigger] post.devices@[i].surfaces@[j]).1.output.id < post.next_output_id by {
            if i < n {
                assert(pre.devices@[i].surfaces@[j] == pre.devices@[i].surfaces@[j]);
                assert(pre.devices@[i].surfaces@[j].1.output.id < pre.next_output_id);
            } else {
                assert(dev.surfaces@[j].1.output.id < post.next_output_id);
            }
        }
    }
    assert(post.output_ids_unique()) by {
        assert forall|i1: int, j1: int, i2: int, j2: int|
            post.valid_loc((i1, j1)) && post.valid_loc((i2, j2)) && !(i1 == i2 && j1 == j2) implies (
        #[trigger] post.devices@[i1].surfaces@[j1]).1.output.id != (
        #[trigger] post.devices@[i2].surfaces@[j2]).1.output.id by {
            if i1 < n && i2 < n {
                assert(pre.valid_loc((i1, j1)) && pre.valid_loc((i2, j2)));
                assert(pre.devices@[i1].surfaces@[j1].1.output.id != pre.devices@[i2].surfaces@[j2].1.output.id);
            } else if i1 < n && i2 == n {
                assert(pre.valid_loc((i1, j1)));
                assert(pre.devices@[i1].surfaces@[j1].1.output.id < pre.next_output_id);
                assert(dev.surfaces@[j2].1.output.id >= pre.next_output_id);
            } else if i1 == n && i2 < n {
                assert(pre.valid_loc((i2, j2)));
                assert(pre.devices@[i2].surfaces@[j2].1.output.id < pre.next_output_id);
                assert(dev.surfaces@[j1].1.output.id >= pre.next_output_id);
            } else {
                if j1 < j2 {
                    assert(dev.surfaces@[j1].1.output.id != dev.surfaces@[j2].1.output.id);
                } else {
                    assert(dev.surfaces@[j2].1.output.id != dev.surfaces@[j1].1.output.id);
                }
            }
        }
    }
}

/// A surface with its render scheduling wiped: no pending render, no timer,
/// no buffer treated as in flight.  Used after a session switch, when the
/// hardware state is unknown and every output needs a fresh render.
pub open spec fn surface_reset(s: Surface) -> Surface {
    Surface {
        pending: false,
        render_timer: None,
        swapchain: match s.swapchain {
            Some(sc) => Some((Swapchain { queued: false, ..sc })),
            None => None,
        },
        ..s
    }
}

/// Whether any surface of `devs` strictly before position `(i, j)` (device
/// order, then surface order) stores `t` as its render-timer token.
pub open spec fn timer_before(devs: Seq<Device>, i: int, j: int, t: u64) -> bool {
    exists|i2: int, j2: int|
        #![trigger devs[i2].surfaces@[j2]]
        0 <= i2 < devs.len() && 0 <= j2 < devs[i2].surfaces@.len() && (i2 < i || (i2 == i && j2
            < j)) && devs[i2].surfaces@[j2].1.render_timer == Some(t)
}

/// Whether any surface of `devs` stores `t` as its render-timer token.
pub open spec fn timer_somewhere(devs: Seq<Device>, t: u64) -> bool {
    exists|i2: int, j2: int|
        #![trigger devs[i2].surfaces@[j2]]
        0 <= i2 < devs.len() && 0 <= j2 < devs[i2].surfaces@.len()
            && devs[i2].surfaces@[j2].1.render_timer == Some(t)
}

/// Whether some entry of `entries` stores `t` as its render-timer token.
pub open spec fn stores_timer(entries: Seq<(u32, Surface)>, t: u64) -> bool {
    exists|k: int|
        0 <= k < entries.len() && (#[trigger] entries[k]).1.render_timer == Some(t)
}

/// After removing one device outright — deregistering exactly the tokens it
/// stored — the backend invariant still holds.
proof fn lemma_wf_after_device_remove(pre: KmsState, post: KmsState, di: int)
    requires
        pre.wf(),
        0 <= di < pre.devices@.len(),
        post.devices@ == pre.devices@.remove(di),
        post.loop_reg.wf(),
        forall|t: u64| post.loop_reg.is_registered(t) ==> pre.loop_reg.is_registered(t),
        forall|t: u64|
            pre.loop_reg.is_registered(t) && !(#[trigger] pre.devices@[di].uses_token(t))
                ==> post.loop_reg.is_registered(t),
        post.next_output_id == pre.next_output_id,
    ensures
        post.wf(),
{
    assert(forall|k: int| 0 <= k < di ==> post.devices@[k] == pre.devices@[k]);
    assert(forall|k: int|
        di <= k < post.devices@.len() ==> post.devices@[k] == pre.devices@[k + 1]);
    assert(post.nodes_unique()) by {
        assert forall|i: int, j: int|
            0 <= i < j < post.devices@.len() implies (#[trigger] post.devices@[i]).node != (
        #[trigger] post.devices@[j]).node by {
            let i2 = if i < di { i } else { i + 1 };
            let j2 = if j < di { j } else { j + 1 };
            assert(pre.devices@[i2].node != pre.devices@[j2].node);
        }
    }
    assert(post.devices_wf()) by {
        assert forall|i: int| 0 <= i < post.devices@.len() implies (
        #[trigger] post.devices@[i]).wf() by {
            let i2 = if i < di { i } else { i + 1 };
            assert(pre.devices@[i2].wf());
        }
    }
    assert(post.tokens_registered()) by {
        assert forall|i: int, t: u64|
            0 <= i < post.devices@.len() && (#[trigger] post.devices@[i].uses_token(t)) implies post
            .loop_reg.is_registered(t) by {
            let i2 = if i < di { i } else { i + 1 };
            assert(pre.devices@[i2].uses_token(t));
            assert(pre.loop_reg.is_registered(t));
            assert(!pre.devices@[di].uses_token(t)) by {
                if pre.devices@[di].uses_token(t) {
                    assert(i2 == di);
                }
            }
        }
    }
    assert(post.tokens_device_unique()) by {
        assert forall|i1: int, i2: int, t: u64|
            0 <= i1 < post.devices@.len() && 0 <= i2 < post.devices@.len() && (
            #[trigger] post.devices@[i1].uses_token(t)) && (
            #[trigger] post.devices@[i2].uses_token(t)) implies i1 == i2 by {
            let k1 = if i1 < di { i1 } else { i1 + 1 };
            let k2 = if i2 < di { i2 } else { i2 + 1 };
            assert(pre.devices@[k1].uses_token(t));
            assert(pre.devices@[k2].uses_token(t));
            assert(k1 == k2);
        }
    }
    assert(post.output_ids_fresh()) by {
        assert forall|i: int, j: int|
            0 <= i < post.devices@.len() && 0 <= j < post.devices@[i].surfaces@.len() implies (
        #[trigger] post.devices@[i].surfaces@[j]).1.output.id < post.next_output_id by {
            let i2 = if i < di { i } else { i + 1 };
            assert(pre.devices@[i2].surfaces@[j] == pre.devices@[i2].surfaces@[j]);
            assert(pre.devices@[i2].surfaces@[j].1.output.id < pre.next_output_id);
        }
    }
    assert(post.output_ids_unique()) by {
        assert forall|i1: int, j1: int, i2: int, j2: int|
            post.valid_loc((i1, j1)) && post.valid_loc((i2, j2)) && !(i1 == i2 && j1 == j2) implies (
        #[trigger] post.devices@[i1].surfaces@[j1]).1.output.id != (
        #[trigger] post.devices@[i2].surfaces@[j2]).1.output.id by {
            let k1 = if i1 < di { i1 } else { i1 + 1 };
            let k2 = if i2 < di { i2 } else { i2 + 1 };
            assert(pre.valid_loc((k1, j1)) && pre.valid_loc((k2, j2)));
            assert(pre.devices@[k1].surfaces@[j1].1.output.id != pre.devices@[k2].surfaces@[j2].1.output.id);
        }
    }
}

/// After rebuilding one device's surface set — keeping only tokens it
/// already stored, deregistering only tokens it stored, and giving new
/// surfaces fresh output identities — the backend invariant still holds.
proof fn lemma_wf_after_device_update(pre: KmsState, post: KmsState, di: int)
    requires
        pre.wf(),
        0 <= di < pre.devices@.len(),
        post.devices@.len() == pre.devices@.len(),
        forall|i: int|
            0 <= i < pre.devices@.len() && i != di ==> #[trigger] post.devices@[i]
                == pre.devices@[i],
        post.devices@[di] == (Device {
            surfaces: post.devices@[di].surfaces,
            ..pre.devices@[di]
        }),
        post.devices@[di].wf(),
        forall|t: u64|
            #[trigger] post.devices@[di].uses_token(t) ==> pre.devices@[di].uses_token(t)
                && post.loop_reg.is_registered(t),
        post.loop_reg.wf(),
        forall|t: u64| post.loop_reg.is_registered(t) ==> pre.loop_reg.is_registered(t),
        forall|t: u64|
            pre.loop_reg.is_registered(t) && !(#[trigger] pre.devices@[di].uses_token(t))
                ==> post.loop_reg.is_registered(t),
        post.next_output_id >= pre.next_output_id,
        forall|j: int|
            0 <= j < post.devices@[di].surfaces@.len() ==> (
            #[trigger] post.devices@[di].surfaces@[j]).1.output.id < post.next_output_id,
        forall|j: int|
            0 <= j < post.devices@[di].surfaces@.len() ==> ((
            #[trigger] post.devices@[di].surfaces@[j]).1.output.id >= pre.next_output_id || exists|
                j2: int,
            |
                0 <= j2 < pre.devices@[di].surfaces@.len() && (
                #[trigger] pre.devices@[di].surfaces@[j2]).1.output.id
                    == post.devices@[di].surfaces@[j].1.output.id),
        forall|j1: int, j2: int|
            0 <= j1 < j2 < post.devices@[di].surfaces@.len() ==> (
            #[trigger] post.devices@[di].surfaces@[j1]).1.output.id != (
            #[trigger] post.devices@[di].surfaces@[j2]).1.output.id,
    ensures
        post.wf(),
{
    assert(post.nodes_unique()) by {
        assert forall|i: int, j: int|
            0 <= i < j < post.devices@.len() implies (#[trigger] post.devices@[i]).node != (
        #[trigger] post.devices@[j]).node by {
            assert(pre.devices@[i].node != pre.devices@[j].node);
        }
    }
    assert(post.devices_wf());
    assert(post.tokens_registered()) by {
        assert forall|i: int, t: u64|
            0 <= i < post.devices@.len() && (#[trigger] post.devices@[i].uses_token(t)) implies post
            .loop_reg.is_registered(t) by {
            if i != di {
                assert(pre.devices@[i].uses_token(t));
                assert(pre.loop_reg.is_registered(t));
                assert(!pre.devices@[di].uses_token(t)) by {
                    if pre.devices@[di].uses_token(t) {
                        assert(i == di);
                    }
                }
            }
        }
    }
    assert(post.tokens_device_unique()) by {
        assert forall|i1: int, i2: int, t: u64|
            0 <= i1 < post.devices@.len() && 0 <= i2 < post.devices@.len() && (
            #[trigger] post.devices@[i1].uses_token(t)) && (
            #[trigger] post.devices@[i2].uses_token(t)) implies i1 == i2 by {
            assert(pre.devices@[i1].uses_token(t));
            assert(pre.devices@[i2].uses_token(t));
        }
    }
    assert(post.output_ids_fresh()) by {
        assert forall|i: int, j: int|
            0 <= i < post.devices@.len() && 0 <= j < post.devices@[i].surfaces@.len() implies (
        #[trigger] post.devices@[i].surfaces@[j]).1.output.id < post.next_output_id by {
            if i != di {
                assert(pre.devices@[i].surfaces@[j] == pre.devices@[i].surfaces@[j]);
                assert(pre.devices@[i].surfaces@[j].1.output.id < pre.next_output_id);
            }
        }
    }
    assert(post.output_ids_unique()) by {
        assert forall|i1: int, j1: int, i2: int, j2: int|
            post.valid_loc((i1, j1)) && post.valid_loc((i2, j2)) && !(i1 == i2 && j1 == j2) implies (
        #[trigger] post.devices@[i1].surfaces@[j1]).1.output.id != (
        #[trigger] post.devices@[i2].surfaces@[j2]).1.output.id by {
            if i1 != di && i2 != di {
                assert(pre.valid_loc((i1, j1)) && pre.valid_loc((i2, j2)));
                assert(pre.devices@[i1].surfaces@[j1].1.output.id
                    != pre.devices@[i2].surfaces@[j2].1.output.id);
            } else if i1 == di && i2 == di {
                if j1 < j2 {
                    assert(post.devices@[di].surfaces@[j1].1.output.id
                        != post.devices@[di].surfaces@[j2].1.output.id);
                } else {
                    assert(post.devices@[di].surfaces@[j2].1.output.id
                        != post.devices@[di].surfaces@[j1].1.output.id);
                }
            } else {
                let iu = if i1 == di {
                    i2
                } else {
                    i1
                };
                let ju = if i1 == di {
                    j2
                } else {
                    j1
                };
                let jd = if i1 == di {
                    j1
                } else {
                    j2
                };
                assert(pre.valid_loc((iu, ju)));
                assert(pre.devices@[iu].surfaces@[ju] == pre.devices@[iu].surfaces@[ju]);
                assert(pre.devices@[iu].surfaces@[ju].1.output.id < pre.next_output_id);
                let idd = post.devices@[di].surfaces@[jd].1.output.id;
                if idd >= pre.next_output_id {
                } else {
                    let j3 = choose|j3: int|
                        0 <= j3 < pre.devices@[di].surfaces@.len() && (
                        #[trigger] pre.devices@[di].surfaces@[j3]).1.output.id == idd;
                    assert(pre.valid_loc((di, j3)));
                    assert(pre.devices@[iu].surfaces@[ju].1.output.id
                        != pre.devices@[di].surfaces@[j3].1.output.id);
                }
            }
        }
    }
}

/// During a re-enumeration, a pairing that was not present before collides
/// neither with a kept surface nor with one created earlier in the same
/// pass.
proof fn lemma_changed_insert_safe(
    d: Device,
    surf0: Seq<(u32, Surface)>,
    config: Seq<(u32, u32)>,
    infos: Seq<Option<ConnectorInfo>>,
    idx: int,
    conn: u32,
    crtc: u32,
)
    requires
        config_conns_unique(config),
        config_crtcs_unique(config),
        config.len() == infos.len(),
        0 <= idx < config.len(),
        config[idx] == (conn, crtc),
        !paired_in(surf0, crtc, conn),
        d.surfaces@.len() == kept_surfaces(surf0, config).len() + kept_setups(
            config.take(idx),
            infos.take(idx),
            surf0,
        ).len(),
        forall|k: int|
            0 <= k < kept_surfaces(surf0, config).len() ==> #[trigger] d.surfaces@[k]
                == kept_surfaces(surf0, config)[k],
        forall|k: int|
            #![trigger kept_setups(config.take(idx), infos.take(idx), surf0)[k]]
            0 <= k < kept_setups(config.take(idx), infos.take(idx), surf0).len() ==> d.surfaces@[(
            kept_surfaces(surf0, config).len() + k)].0 == kept_setups(
                config.take(idx),
                infos.take(idx),
                surf0,
            )[k].0.0 && d.surfaces@[(kept_surfaces(surf0, config).len() + k)].1.connector
                == kept_setups(config.take(idx), infos.take(idx), surf0)[k].0.1,
    ensures
        !d.has_crtc(crtc),
        !d.has_connector(conn),
{
    let kept_g = kept_surfaces(surf0, config);
    let ncur = kept_setups(config.take(idx), infos.take(idx), surf0);
    lemma_kept_setups_from_config(config.take(idx), infos.take(idx), surf0);
    lemma_kept_surfaces_elems(surf0, config);
    assert(!d.has_crtc(crtc)) by {
        if d.has_crtc(crtc) {
            let k = choose|k: int|
                0 <= k < d.surfaces@.len() && (#[trigger] d.surfaces@[k]).0 == crtc;
            if k < kept_g.len() {
                assert(kept_g[k].0 == crtc);
                assert(config_has_pair(config, kept_g[k].1.connector, crtc));
                let k2 = choose|k2: int|
                    0 <= k2 < config.len() && #[trigger] config[k2] == (
                        kept_g[k].1.connector,
                        crtc,
                    );
                assert(config[idx].1 == crtc);
                assert(k2 == idx);
                assert(kept_g[k].1.connector == conn);
                let k3 = choose|k3: int| 0 <= k3 < surf0.len() && #[trigger] surf0[k3] == kept_g[k];
                assert(paired_in(surf0, crtc, conn));
            } else {
                let kk = k - kept_g.len();
                assert(ncur[kk] == ncur[kk]);
                assert(ncur[kk].0.0 == crtc);
                let k2 = choose|k2: int|
                    0 <= k2 < config.take(idx).len() && #[trigger] config.take(idx)[k2] == (
                        ncur[kk].0.1,
                        ncur[kk].0.0,
                    );
                assert(config[k2].1 == crtc);
                assert(config[idx].1 == crtc);
            }
        }
    }
    assert(!d.has_connector(conn)) by {
        if d.has_connector(conn) {
            let k = choose|k: int|
                0 <= k < d.surfaces@.len() && (#[trigger] d.surfaces@[k]).1.connector == conn;
            if k < kept_g.len() {
                assert(kept_g[k].1.connector == conn);
                assert(config_has_pair(config, conn, kept_g[k].0));
                let k2 = choose|k2: int|
                    0 <= k2 < config.len() && #[trigger] config[k2] == (conn, kept_g[k].0);
                assert(config[idx].0 == conn);
                assert(k2 == idx);
                assert(kept_g[k].0 == crtc);
                let k3 = choose|k3: int| 0 <= k3 < surf0.len() && #[trigger] surf0[k3] == kept_g[k];
                assert(paired_in(surf0, crtc, conn));
            } else {
                let kk = k - kept_g.len();
                assert(ncur[kk] == ncur[kk]);
                assert(ncur[kk].0.1 == conn);
                let k2 = choose|k2: int|
                    0 <= k2 < config.take(idx).len() && #[trigger] config.take(idx)[k2] == (
                        ncur[kk].0.1,
                        ncur[kk].0.0,
                    );
                assert(config[k2].0 == conn);
                assert(config[idx].0 == conn);
            }
        }
    }
}

/// After a re-enumeration rebuilt device `di` — keeping the surfaces whose
/// pairing survived, deregistering exactly the removed surfaces' timers and
/// giving the new surfaces fresh identities and no timers — the backend
/// invariant still holds.
proof fn lemma_changed_wf(
    pre: KmsState,
    post: KmsState,
    di: int,
    config: Seq<(u32, u32)>,
    infos: Seq<Option<ConnectorInfo>>,
)
    requires
        pre.wf(),
        0 <= di < pre.devices@.len(),
        pre.next_output_id + kept_setups(
            config,
            infos,
            pre.devices@[di].surfaces@,
        ).len() <= u64::MAX,
        post.devices@ == pre.devices@.update(di, post.devices@[di]),
        post.devices@[di] == (Device {
            surfaces: post.devices@[di].surfaces,
            ..pre.devices@[di]
        }),
        post.devices@[di].wf(),
        post.devices@[di].surfaces@.len() == kept_surfaces(
            pre.devices@[di].surfaces@,
            config,
        ).len() + kept_setups(config, infos, pre.devices@[di].surfaces@).len(),
        forall|k: int|
            0 <= k < kept_surfaces(pre.devices@[di].surfaces@, config).len()
                ==> #[trigger] post.devices@[di].surfaces@[k] == kept_surfaces(
                pre.devices@[di].surfaces@,
                config,
            )[k],
        forall|k: int|
            kept_surfaces(pre.devices@[di].surfaces@, config).len() <= k
                < post.devices@[di].surfaces@.len() ==> (
            #[trigger] post.devices@[di].surfaces@[k]).1.render_timer is None
                && post.devices@[di].surfaces@[k].1.output.id == (pre.next_output_id + (k
                - kept_surfaces(pre.devices@[di].surfaces@, config).len())) as u64,
        post.loop_reg.wf(),
        forall|t: u64|
            post.loop_reg.is_registered(t) <==> (pre.loop_reg.is_registered(t) && !stores_timer(
                removed_surfaces(pre.devices@[di].surfaces@, config),
                t,
            )),
        post.next_output_id == pre.next_output_id + kept_setups(
            config,
            infos,
            pre.devices@[di].surfaces@,
        ).len(),
    ensures
        post.wf(),
{
    let d0 = pre.devices@[di];
    let surf0 = d0.surfaces@;
    let kept_g = kept_surfaces(surf0, config);
    let rem_g = removed_surfaces(surf0, config);
    let n0 = pre.next_output_id;
    let dev = post.devices@[di];
    lemma_removed_surfaces_elems(surf0, config);
    lemma_kept_surfaces_elems(surf0, config);
    assert(d0.wf());
    // tokens the rebuilt device stores were the old device's, and none of
    // them was deregistered
    assert forall|t: u64| #[trigger]
        dev.uses_token(t) implies d0.uses_token(t) && post.loop_reg.is_registered(t) by {
        if dev.event_token == Some(t) {
            assert(d0.uses_token(t));
            assert(!stores_timer(rem_g, t)) by {
                if stores_timer(rem_g, t) {
                    let k = choose|k: int|
                        0 <= k < rem_g.len() && (#[trigger] rem_g[k]).1.render_timer == Some(t);
                    let k2 = choose|k2: int| 0 <= k2 < surf0.len() && #[trigger] surf0[k2] == rem_g[k];
                }
            }
        } else if dev.socket matches Some(sk) && sk.token == t {
            assert(d0.uses_token(t));
            assert(!stores_timer(rem_g, t)) by {
                if stores_timer(rem_g, t) {
                    let k = choose|k: int|
                        0 <= k < rem_g.len() && (#[trigger] rem_g[k]).1.render_timer == Some(t);
                    let k2 = choose|k2: int| 0 <= k2 < surf0.len() && #[trigger] surf0[k2] == rem_g[k];
                }
            }
        } else {
            let j = choose|j: int|
                0 <= j < dev.surfaces@.len() && (#[trigger] dev.surfaces@[j]).1.render_timer == Some(
                    t,
                );
            assert(j < kept_g.len());
            let kk = choose|kk: int| 0 <= kk < surf0.len() && #[trigger] surf0[kk] == kept_g[j];
            assert(d0.uses_token(t)) by {
                assert(surf0[kk].1.render_timer == Some(t));
            }
            assert(!stores_timer(rem_g, t)) by {
                if stores_timer(rem_g, t) {
                    let k = choose|k: int|
                        0 <= k < rem_g.len() && (#[trigger] rem_g[k]).1.render_timer == Some(t);
                    let kr = choose|kr: int| 0 <= kr < surf0.len() && #[trigger] surf0[kr] == rem_g[k];
                    if kr < kk {
                        assert(!(surf0[kr].1.render_timer is Some && surf0[kr].1.render_timer
                            == surf0[kk].1.render_timer));
                    } else if kk < kr {
                        assert(!(surf0[kk].1.render_timer is Some && surf0[kk].1.render_timer
                            == surf0[kr].1.render_timer));
                    } else {
                        assert(rem_g[k] == kept_g[j]);
                        assert(config_has_pair(config, kept_g[j].1.connector, kept_g[j].0));
                        assert(!config_has_pair(config, rem_g[k].1.connector, rem_g[k].0));
                    }
                }
            }
        }
    }
    assert forall|t: u64|
        pre.loop_reg.is_registered(t) && !(#[trigger] d0.uses_token(t)) implies post.loop_reg
        .is_registered(t) by {
        assert(!stores_timer(rem_g, t)) by {
            if stores_timer(rem_g, t) {
                let k = choose|k: int|
                    0 <= k < rem_g.len() && (#[trigger] rem_g[k]).1.render_timer == Some(t);
                let k2 = choose|k2: int| 0 <= k2 < surf0.len() && #[trigger] surf0[k2] == rem_g[k];
                assert(d0.uses_token(t));
            }
        }
    }
    // output identities of the rebuilt device
    assert forall|j: int| 0 <= j < dev.surfaces@.len() implies (
    #[trigger] dev.surfaces@[j]).1.output.id < post.next_output_id && (dev.surfaces@[j].1.output.id
        >= n0 || exists|j2: int|
        0 <= j2 < surf0.len() && (#[trigger] surf0[j2]).1.output.id
            == dev.surfaces@[j].1.output.id) by {
        if j < kept_g.len() {
            let k2 = choose|k2: int| 0 <= k2 < surf0.len() && #[trigger] surf0[k2] == kept_g[j];
            assert(pre.devices@[di].surfaces@[k2] == pre.devices@[di].surfaces@[k2]);
            assert(surf0[k2].1.output.id < n0);
        }
    }
    assert forall|j1: int, j2: int|
        0 <= j1 < j2 < dev.surfaces@.len() implies (#[trigger] dev.surfaces@[j1]).1.output.id != (
    #[trigger] dev.surfaces@[j2]).1.output.id by {
        if j1 < kept_g.len() && j2 < kept_g.len() {
            let k1 = choose|k1: int| 0 <= k1 < surf0.len() && #[trigger] surf0[k1] == kept_g[j1];
            let k2 = choose|k2: int| 0 <= k2 < surf0.len() && #[trigger] surf0[k2] == kept_g[j2];
            assert(kept_g[j1].0 != kept_g[j2].0);
            assert(k1 != k2);
            assert(pre.valid_loc((di, k1)));
            assert(pre.valid_loc((di, k2)));
            assert(pre.devices@[di].surfaces@[k1].1.output.id
                != pre.devices@[di].surfaces@[k2].1.output.id);
        } else if j1 < kept_g.len() {
            let k1 = choose|k1: int| 0 <= k1 < surf0.len() && #[trigger] surf0[k1] == kept_g[j1];
            assert(pre.devices@[di].surfaces@[k1] == pre.devices@[di].surfaces@[k1]);
            assert(surf0[k1].1.output.id < n0);
        }
    }
    lemma_wf_after_device_update(pre, post, di);
}

/// Whether `post` is `pre` with exactly the surface at `loc` replaced by
/// `s2` (same CRTC key, same device otherwise, everything else untouched;
/// the event-loop registrations may still differ).
pub open spec fn surface_replaced(pre: KmsState, post: KmsState, loc: (int, int), s2: Surface) -> bool {
    &&& post.devices@.len() == pre.devices@.len()
    &&& forall|i2: int|
        0 <= i2 < pre.devices@.len() && i2 != loc.0 ==> post.devices@[i2] == pre.devices@[i2]
    &&& post.devices@[loc.0] == (Device {
        surfaces: post.devices@[loc.0].surfaces,
        ..pre.devices@[loc.0]
    })
    &&& post.devices@[loc.0].surfaces@ == pre.devices@[loc.0].surfaces@.update(
        loc.1,
        (pre.devices@[loc.0].surfaces@[loc.1].0, s2),
    )
    &&& post.primary == pre.primary
    &&& post.session_active == pre.session_active
    &&& post.next_output_id == pre.next_output_id
}

/// The whole backend: every known GPU, the primary GPU used as the default
/// composition target, whether the session currently owns the seat, the
/// model of the event loop's registrations, and the counter that keeps
/// logical output identities fresh.
pub struct KmsState {
    pub devices: Vec<Device>,
    pub primary: u64,
    pub session_active: bool,
    pub loop_reg: LoopRegistry,
    pub next_output_id: u64,
}

impl KmsState {
    /// Every device identity occurs once.
    pub open spec fn nodes_unique(self) -> bool {
        forall|i: int, j: int|
            0 <= i < j < self.devices@.len() ==> (#[trigger] self.devices@[i]).node != (
            #[trigger] self.devices@[j]).node
    }

    /// Every device satisfies its own invariant.
    pub open spec fn devices_wf(self) -> bool {
        forall|i: int| 0 <= i < self.devices@.len() ==> (#[trigger] self.devices@[i]).wf()
    }

    /// Every token stored anywhere in the state is currently registered with
    /// the event loop.
    pub open spec fn tokens_registered(self) -> bool {
        forall|i: int, t: u64|
            0 <= i < self.devices@.len() && (#[trigger] self.devices@[i].uses_token(t))
                ==> self.loop_reg.is_registered(t)
    }

    /// No token is stored by two different devices.
    pub open spec fn tokens_device_unique(self) -> bool {
        forall|i1: int, i2: int, t: u64|
            0 <= i1 < self.devices@.len() && 0 <= i2 < self.devices@.len() && (
            #[trigger] self.devices@[i1].uses_token(t)) && (
            #[trigger] self.devices@[i2].uses_token(t)) ==> i1 == i2
    }

    /// Whether `(i, j)` indexes a surface.
    pub open spec fn valid_loc(self, loc: (int, int)) -> bool {
        0 <= loc.0 < self.devices@.len() && 0 <= loc.1 < self.devices@[loc.0].surfaces@.len()
    }

    /// The surface at a location.
    pub open spec fn surface_at(self, loc: (int, int)) -> Surface {
        self.devices@[loc.0].surfaces@[loc.1].1
    }

    /// Every published output identity is below the freshness counter.
    pub open spec fn output_ids_fresh(self) -> bool {
        forall|i: int, j: int|
            #![trigger self.devices@[i].surfaces@[j]]
            0 <= i < self.devices@.len() && 0 <= j < self.devices@[i].surfaces@.len()
                ==> self.devices@[i].surfaces@[j].1.output.id < self.next_output_id
    }

    /// No two surfaces publish the same output identity.
    pub open spec fn output_ids_unique(self) -> bool {
        forall|i1: int, j1: int, i2: int, j2: int|
            #![trigger self.devices@[i1].surfaces@[j1], self.devices@[i2].surfaces@[j2]]
            self.valid_loc((i1, j1)) && self.valid_loc((i2, j2)) && !(i1 == i2 && j1 == j2)
                ==> self.devices@[i1].surfaces@[j1].1.output.id
                != self.devices@[i2].surfaces@[j2].1.output.id
    }

    /// The backend invariant.
    pub open spec fn wf(self) -> bool {
        &&& self.nodes_unique()
        &&& self.devices_wf()
        &&& self.tokens_registered()
        &&& self.tokens_device_unique()
        &&& self.output_ids_fresh()
        &&& self.output_ids_unique()
        &&& self.loop_reg.wf()
    }

    /// Whether some device has identity `node`.
    pub open spec fn has_device(self, node: u64) -> bool {
        exists|i: int| 0 <= i < self.devices@.len() && (#[trigger] self.devices@[i]).node == node
    }

    /// Whether some surface publishes output `id`.
    pub open spec fn has_output(self, id: u64) -> bool {
        exists|loc: (int, int)|
            self.valid_loc(loc) && (#[trigger] self.surface_at(loc)).output.id == id
    }

    /// The location of the surface publishing output `id` (unique under
    /// [`KmsState::wf`]).
    pub open spec fn output_loc(self, id: u64) -> (int, int) {
        choose|loc: (int, int)| self.valid_loc(loc) && self.surface_at(loc).output.id == id
    }

    /// A fresh backend: no devices, no registrations, session active.
    pub fn new(primary: u64) -> (r: Self)
        ensures
            r.wf(),
            r.devices@.len() == 0,
            r.primary == primary,
            r.session_active == true,
            r.loop_reg.registered@.len() == 0,
            r.loop_reg.next_token == 0,
            r.next_output_id == 0,
    {
        KmsState {
            devices: Vec::new(),
            primary,
            session_active: true,
            loop_reg: LoopRegistry::new(),
            next_output_id: 0,
        }
    }

    /// Record a session-state change delivered by the session manager.
    pub fn set_session_active(&mut self, active: bool)
        requires
            old(self).wf(),
        ensures
            final(self).wf(),
            *final(self) == (KmsState { session_active: active, ..*old(self) }),
    {
        self.session_active = active;
    }

    /// Find the device with identity `node`.
    pub fn device_index(&self, node: u64) -> (r: Option<usize>)
        ensures
            match r {
                Some(i) => 0 <= i < self.devices@.len() && self.devices@[i as int].node == node,
                None => !self.has_device(node),
            },
    {
        let mut i: usize = 0;
        while i < self.devices.len()
            invariant
                0 <= i <= self.devices@.len(),
                forall|k: int| 0 <= k < i ==> (#[trigger] self.devices@[k]).node != node,
            decreases self.devices@.len() - i,
        {
            if self.devices[i].node == node {
                return Some(i);
            }
            i = i + 1;
        }
        assert(!self.has_device(node)) by {
            if self.has_device(node) {
                let k = choose|k: int|
                    0 <= k < self.devices@.len() && (#[trigger] self.devices@[k]).node == node;
            }
        }
        None
    }

    /// Borrow the device with identity `node`, if known.
    pub fn get_device(&self, node: u64) -> (r: Option<&Device>)
        ensures
            match r {
                Some(d) => exists|i: int|
                    0 <= i < self.devices@.len() && #[trigger] self.devices@[i] == *d
                        && d.node == node,
                None => !self.has_device(node),
            },
    {
        match self.device_index(node) {
            Some(i) => Some(&self.devices[i]),
            None => None,
        }
    }

    /// Find the surface publishing output `id`.
    pub fn locate_output(&self, id: u64) -> (r: Option<(usize, usize)>)
        requires
            self.wf(),
        ensures
            match r {
                Some(loc) => {
                    &&& self.valid_loc((loc.0 as int, loc.1 as int))
                    &&& self.surface_at((loc.0 as int, loc.1 as int)).output.id == id
                    &&& self.output_loc(id) == (loc.0 as int, loc.1 as int)
                    &&& self.has_output(id)
                },
                None => !self.has_output(id),
            },
    {
        let mut i: usize = 0;
        while i < self.devices.len()
            invariant
                self.wf(),
                0 <= i <= self.devices@.len(),
                forall|i2: int, j2: int|
                    #![trigger self.devices@[i2].surfaces@[j2]]
                    0 <= i2 < i && 0 <= j2 < self.devices@[i2].surfaces@.len()
                        ==> self.devices@[i2].surfaces@[j2].1.output.id != id,
            decreases self.devices@.len() - i,
        {
            let mut j: usize = 0;
            while j < self.devices[i].surfaces.len()
                invariant
                    self.wf(),
                    0 <= i < self.devices@.len(),
                    0 <= j <= self.devices@[i as int].surfaces@.len(),
                    forall|i2: int, j2: int|
                        #![trigger self.devices@[i2].surfaces@[j2]]
                        0 <= i2 < i && 0 <= j2 < self.devices@[i2].surfaces@.len()
                            ==> self.devices@[i2].surfaces@[j2].1.output.id != id,
                    forall|j2: int|
                        #![trigger self.devices@[i as int].surfaces@[j2]]
                        0 <= j2 < j ==> self.devices@[i as int].surfaces@[j2].1.output.id != id,
                decreases self.devices@[i as int].surfaces@.len() - j,
            {
                if self.devices[i].surfaces[j].1.output.id == id {
                    proof {
                        let loc = (i as int, j as int);
                        assert(self.valid_loc(loc) && self.surface_at(loc).output.id == id);
                        let c = self.output_loc(id);
                        assert(self.valid_loc(c) && self.surface_at(c).output.id == id);
                        assert(c == loc);
                    }
                    return Some((i, j));
                }
                j = j + 1;
            }
            i = i + 1;
        }
        assert(!self.has_output(id)) by {
            if self.has_output(id) {
                let loc = choose|loc: (int, int)|
                    self.valid_loc(loc) && (#[trigger] self.surface_at(loc)).output.id == id;
            }
        }
        None
    }

    /// The render node a given output's device exposes: the GPU that buffers
    /// for this output should ultimately be composited towards.
    pub fn target_node_for_output(&self, output_id: u64) -> (r: Option<u64>)
        requires
            self.wf(),
        ensures
            match r {
                Some(n) => self.has_output(output_id) && n == self.devices@[self.output_loc(
                    output_id,
                ).0].render_node,
                None => !self.has_output(output_id),
            },
    {
        match self.locate_output(output_id) {
            Some((i, _j)) => Some(self.devices[i].render_node),
            None => None,
        }
    }

    /// The most recently rendered buffer of an output, with the render node
    /// that produced it and the render timestamp; `None` when the output is
    /// unknown or nothing was rendered yet.
    pub fn capture_output(&self, output_id: u64) -> (r: Option<(u64, u64, u64)>)
        requires
            self.wf(),
        ensures
            match r {
                Some(t) => {
                    &&& self.has_output(output_id)
                    &&& t.0 == self.devices@[self.output_loc(output_id).0].render_node
                    &&& self.surface_at(self.output_loc(output_id)).last_render == Some(
                        (t.1, t.2),
                    )
                },
                None => !self.has_output(output_id) || self.surface_at(
                    self.output_loc(output_id),
                ).last_render is None,
            },
    {
        match self.locate_output(output_id) {
            Some((i, j)) => {
                match self.devices[i].surfaces[j].1.last_render {
                    Some((buf, time)) => Some((self.devices[i].render_node, buf, time)),
                    None => None,
                }
            },
            None => None,
        }
    }

    /// Which device's renderer an externally submitted buffer belongs to:
    /// the render node of the first device whose client-facing endpoint
    /// advertises the given dmabuf global.  `None` means no endpoint matches
    /// (the caller treats that as unreachable).
    pub fn dmabuf_imported(&self, dmabuf_global: u64) -> (r: Option<u64>)
        ensures
            match r {
                Some(n) => exists|i: int|
                    0 <= i < self.devices@.len() && ((#[trigger] self.devices@[i]).socket
                        matches Some(s) && s.dmabuf_global == dmabuf_global) && n
                        == self.devices@[i].render_node,
                None => forall|i: int|
                    0 <= i < self.devices@.len() ==> !((#[trigger] self.devices@[i]).socket
                        matches Some(s) && s.dmabuf_global == dmabuf_global),
            },
    {
        let mut i: usize = 0;
        while i < self.devices.len()
            invariant
                0 <= i <= self.devices@.len(),
                forall|k: int|
                    0 <= k < i ==> !((#[trigger] self.devices@[k]).socket matches Some(s)
                        && s.dmabuf_global == dmabuf_global),
            decreases self.devices@.len() - i,
        {
            if let Some(s) = self.devices[i].socket {
                if s.dmabuf_global == dmabuf_global {
                    return Some(self.devices[i].render_node);
                }
            }
            i = i + 1;
        }
        None
    }

    /// Whether scheduling a render for output `id` would do anything: the
    /// output exists, has a swapchain, and has no outstanding render.
    pub open spec fn schedulable(self, id: u64) -> bool {
        &&& self.has_output(id)
        &&& self.surface_at(self.output_loc(id)).swapchain is Some
        &&& !self.surface_at(self.output_loc(id)).pending
    }

    /// Schedule a render for output `id`: mark it pending and register an
    /// immediately-firing render timer.  A no-op when the output is unknown,
    /// has no swapchain, or already has an outstanding render — so calling
    /// this twice before the timer fires schedules exactly one render.
    pub fn schedule_render(&mut self, output_id: u64)
        requires
            old(self).wf(),
            old(self).loop_reg.can_register(1),
        ensures
            final(self).wf(),
            !old(self).schedulable(output_id) ==> *final(self) == *old(self),
            old(self).schedulable(output_id) ==> {
                let loc = old(self).output_loc(output_id);
                let tok = old(self).loop_reg.next_token;
                &&& final(self).devices@.len() == old(self).devices@.len()
                &&& forall|i2: int|
                    0 <= i2 < old(self).devices@.len() && i2 != loc.0
                        ==> final(self).devices@[i2] == old(self).devices@[i2]
                &&& final(self).devices@[loc.0].node == old(self).devices@[loc.0].node
                &&& final(self).devices@[loc.0].render_node == old(self).devices@[loc.0].render_node
                &&& final(self).devices@[loc.0].supports_atomic == old(
                    self,
                ).devices@[loc.0].supports_atomic
                &&& final(self).devices@[loc.0].event_token == old(self).devices@[loc.0].event_token
                &&& final(self).devices@[loc.0].socket == old(self).devices@[loc.0].socket
                &&& final(self).devices@[loc.0].surfaces@ == old(
                    self,
                ).devices@[loc.0].surfaces@.update(
                    loc.1,
                    (
                        old(self).devices@[loc.0].surfaces@[loc.1].0,
                        (Surface {
                            pending: true,
                            render_timer: Some(tok),
                            ..old(self).surface_at(loc)
                        }),
                    ),
                )
                &&& final(self).loop_reg.registered@ == old(self).loop_reg.registered@.push(tok)
                &&& final(self).loop_reg.next_token == old(self).loop_reg.next_token + 1
                &&& final(self).primary == old(self).primary
                &&& final(self).session_active == old(self).session_active
                &&& final(self).next_output_id == old(self).next_output_id
            },
    {
        let loc = match self.locate_output(output_id) {
            Some(loc) => loc,
            None => {
                return ;
            },
        };
        let (i, j) = loc;
        if self.devices[i].surfaces[j].1.swapchain.is_none() {
            return ;
        }
        if self.devices[i].surfaces[j].1.pending {
            return ;
        }
        let tok = self.loop_reg.register();
        let mut d = self.devices.remove(i);
        let mut e = d.surfaces.remove(j);
        e.1.pending = true;
        e.1.render_timer = Some(tok);
        d.surfaces.insert(j, e);
        self.devices.insert(i, d);
        proof {
            let locg = (i as int, j as int);
            assert(self.devices@ =~= old(self).devices@.update(
                i as int,
                self.devices@[i as int],
            ));
            assert(self.devices@[i as int].surfaces@ =~= old(self).devices@[i as int].surfaces@
                .update(
                j as int,
                (
                    old(self).devices@[i as int].surfaces@[j as int].0,
                    (Surface {
                        pending: true,
                        render_timer: Some(tok),
                        ..old(self).surface_at(locg)
                    }),
                ),
            ));
            lemma_wf_after_surface_replace(
                *old(self),
                *self,
                i as int,
                j as int,
                Some(tok),
                None,
            );
        }
    }

    /// The index of the device with identity `node` (unique under
    /// [`KmsState::wf`]).
    pub open spec fn device_loc(self, node: u64) -> int {
        choose|i: int| 0 <= i < self.devices@.len() && self.devices@[i].node == node
    }

    /// The index, within device `i`, of the surface keyed by `crtc` (unique
    /// under [`KmsState::wf`]).
    pub open spec fn crtc_loc(self, i: int, crtc: u32) -> int {
        choose|j: int|
            0 <= j < self.devices@[i].surfaces@.len() && self.devices@[i].surfaces@[j].0 == crtc
    }

    /// Whether a completion event for `(node, crtc)` confirms a queued
    /// buffer: the surface exists, a submission is in flight, and the event
    /// stream reported success.
    pub open spec fn completion_confirms(self, node: u64, crtc: u32, submit_ok: bool) -> bool {
        &&& submit_ok
        &&& self.has_device(node)
        &&& self.devices@[self.device_loc(node)].has_crtc(crtc)
        &&& self.surface_at(
            (self.device_loc(node), self.crtc_loc(self.device_loc(node), crtc)),
        ).in_flight()
    }

    /// Handle one event from a device's completion stream, delivered per
    /// CRTC.  On a successful flip completion with a buffer in flight, the
    /// submission is confirmed, the completion timestamp recorded and the
    /// pending flag cleared; the return value tells the driver to notify the
    /// compositor's frame-callback machinery.  On an error, or when nothing
    /// was in flight, nothing changes.
    pub fn on_vblank(
        &mut self,
        node: u64,
        crtc: u32,
        time: Option<u64>,
        submit_ok: bool,
    ) -> (notify: bool)
        requires
            old(self).wf(),
        ensures
            final(self).wf(),
            notify == old(self).completion_confirms(node, crtc, submit_ok),
            !notify ==> *final(self) == *old(self),
            notify ==> {
                let i = old(self).device_loc(node);
                let j = old(self).crtc_loc(i, crtc);
                let s = old(self).surface_at((i, j));
                &&& final(self).devices@.len() == old(self).devices@.len()
                &&& forall|i2: int|
                    0 <= i2 < old(self).devices@.len() && i2 != i ==> final(self).devices@[i2]
                        == old(self).devices@[i2]
                &&& final(self).devices@[i] == (Device {
                    surfaces: final(self).devices@[i].surfaces,
                    ..old(self).devices@[i]
                })
                &&& final(self).devices@[i].surfaces@ == old(self).devices@[i].surfaces@.update(
                    j,
                    (
                        old(self).devices@[i].surfaces@[j].0,
                        (Surface {
                            swapchain: Some(
                                (crate::surface::Swapchain {
                                    queued: false,
                                    ..s.swapchain.unwrap()
                                }),
                            ),
                            last_submit: time,
                            pending: false,
                            ..s
                        }),
                    ),
                )
                &&& final(self).loop_reg == old(self).loop_reg
                &&& final(self).primary == old(self).primary
                &&& final(self).session_active == old(self).session_active
                &&& final(self).next_output_id == old(self).next_output_id
            },
    {
        if !submit_ok {
            return false;
        }
        let i = match self.device_index(node) {
            Some(i) => i,
            None => {
                return false;
            },
        };
        proof {
            let c = self.device_loc(node);
            assert(0 <= c < self.devices@.len() && self.devices@[c].node == node);
            assert(c == i as int);
        }
        let j = match self.devices[i].crtc_index(crtc) {
            Some(j) => j,
            None => {
                return false;
            },
        };
        proof {
            let c = self.crtc_loc(i as int, crtc);
            assert(0 <= c < self.devices@[i as int].surfaces@.len()
                && self.devices@[i as int].surfaces@[c].0 == crtc);
            assert(self.devices@[i as int].wf());
            assert(c == j as int);
        }
        let queued = match &self.devices[i].surfaces[j].1.swapchain {
            Some(sc) => sc.queued,
            None => false,
        };
        if !queued {
            return false;
        }
        let mut d = self.devices.remove(i);
        let mut e = d.surfaces.remove(j);
        let confirmed = e.1.confirm_completion(time);
        assert(confirmed);
        d.surfaces.insert(j, e);
        self.devices.insert(i, d);
        proof {
            assert(self.devices@ =~= old(self).devices@.update(i as int, self.devices@[i as int]));
            assert(self.devices@[i as int].surfaces@ =~= old(self).devices@[i as int].surfaces@
                .update(j as int, self.devices@[i as int].surfaces@[j as int]));
            lemma_wf_after_surface_replace(*old(self), *self, i as int, j as int, None, None);
        }
        true
    }

    /// Whether a render-timer firing for `(node, crtc)` finds its surface:
    /// the surface exists and still stores a timer token.
    pub open spec fn timer_fires(self, node: u64, crtc: u32) -> bool {
        &&& self.has_device(node)
        &&& self.devices@[self.device_loc(node)].has_crtc(crtc)
        &&& self.surface_at(
            (self.device_loc(node), self.crtc_loc(self.device_loc(node), crtc)),
        ).render_timer is Some
    }

    /// Handle the firing of a surface's render timer.  The driver has
    /// already chosen the render node, acquired and bound a buffer and run
    /// the composition routine; `outcome` reports how far that got.  The
    /// surface steps as [`crate::surface::render_step`] describes; when the
    /// firing is spent (`TimerAction::Stop`) the timer's token is
    /// deregistered, and on failure the registration stays for a retry after
    /// one refresh interval.
    pub fn on_render_timer(
        &mut self,
        node: u64,
        crtc: u32,
        now: u64,
        needs_reset: bool,
        outcome: crate::surface::RenderOutcome,
    ) -> (act: crate::surface::TimerAction)
        requires
            old(self).wf(),
        ensures
            final(self).wf(),
            !old(self).timer_fires(node, crtc) ==> *final(self) == *old(self) && act
                == crate::surface::TimerAction::Stop,
            old(self).timer_fires(node, crtc) ==> {
                let i = old(self).device_loc(node);
                let j = old(self).crtc_loc(i, crtc);
                let s = old(self).surface_at((i, j));
                let tok = s.render_timer.unwrap();
                let st = crate::surface::render_step(s, now, needs_reset, outcome);
                &&& act == st.1
                &&& final(self).devices@.len() == old(self).devices@.len()
                &&& forall|i2: int|
                    0 <= i2 < old(self).devices@.len() && i2 != i ==> final(self).devices@[i2]
                        == old(self).devices@[i2]
                &&& final(self).devices@[i] == (Device {
                    surfaces: final(self).devices@[i].surfaces,
                    ..old(self).devices@[i]
                })
                &&& final(self).devices@[i].surfaces@ == old(self).devices@[i].surfaces@.update(
                    j,
                    (old(self).devices@[i].surfaces@[j].0, st.0),
                )
                &&& (act == crate::surface::TimerAction::Retry ==> final(self).loop_reg == old(
                    self,
                ).loop_reg)
                &&& (act == crate::surface::TimerAction::Stop ==> {
                    &&& !final(self).loop_reg.is_registered(tok)
                    &&& forall|x: u64|
                        x != tok ==> (final(self).loop_reg.is_registered(x) <==> old(
                            self,
                        ).loop_reg.is_registered(x))
                    &&& final(self).loop_reg.next_token == old(self).loop_reg.next_token
                })
                &&& final(self).primary == old(self).primary
                &&& final(self).session_active == old(self).session_active
                &&& final(self).next_output_id == old(self).next_output_id
            },
    {
        let i = match self.device_index(node) {
            Some(i) => i,
            None => {
                return crate::surface::TimerAction::Stop;
            },
        };
        proof {
            let c = self.device_loc(node);
            assert(0 <= c < self.devices@.len() && self.devices@[c].node == node);
            assert(c == i as int);
        }
        let j = match self.devices[i].crtc_index(crtc) {
            Some(j) => j,
            None => {
                return crate::surface::TimerAction::Stop;
            },
        };
        proof {
            let c = self.crtc_loc(i as int, crtc);
            assert(0 <= c < self.devices@[i as int].surfaces@.len()
                && self.devices@[i as int].surfaces@[c].0 == crtc);
            assert(self.devices@[i as int].wf());
            assert(c == j as int);
        }
        let tok = match self.devices[i].surfaces[j].1.render_timer {
            Some(tok) => tok,
            None => {
                return crate::surface::TimerAction::Stop;
            },
        };
        let mut d = self.devices.remove(i);
        let mut e = d.surfaces.remove(j);
        let act = e.1.render_output(now, needs_reset, outcome);
        d.surfaces.insert(j, e);
        self.devices.insert(i, d);
        if act == crate::surface::TimerAction::Stop {
            self.loop_reg.deregister(tok);
        }
        proof {
            assert(self.devices@ =~= old(self).devices@.update(i as int, self.devices@[i as int]));
            assert(self.devices@[i as int].surfaces@ =~= old(self).devices@[i as int].surfaces@
                .update(j as int, self.devices@[i as int].surfaces@[j as int]));
            if act == crate::surface::TimerAction::Stop {
                lemma_wf_after_surface_replace(
                    *old(self),
                    *self,
                    i as int,
                    j as int,
                    None,
                    Some(tok),
                );
            } else {
                lemma_wf_after_surface_replace(*old(self), *self, i as int, j as int, None, None);
            }
        }
        act
    }

    /// Apply the configuration record attached to output `output_id` to the
    /// hardware state.  With `test_only` the call only validates (a missing
    /// resolution still fails) and never mutates anything.  Disabling drops
    /// the swapchain, cancels any scheduled render and detaches the output.
    /// Enabling picks, among the advertised modes with exactly the
    /// configured resolution, the first one closest to the configured
    /// refresh target; with a live swapchain the mode is switched in place
    /// (updating variable refresh rate first when it differs, which may
    /// fail); otherwise a fresh swapchain is created and a render scheduled
    /// at once.  `vrr_outcome` and `create_ok` report what the driver's
    /// variable-refresh-rate and surface-creation calls returned.
    #[verifier::rlimit(100)]
    pub fn apply_config_for_output(
        &mut self,
        output_id: u64,
        test_only: bool,
        vrr_outcome: Option<bool>,
        create_ok: bool,
    ) -> (r: Result<ApplyResult, ConfigError>)
        requires
            old(self).wf(),
            old(self).loop_reg.can_register(1),
        ensures
            final(self).wf(),
            !old(self).has_output(output_id) ==> *final(self) == *old(self) && r == Ok::<
                ApplyResult,
                ConfigError,
            >((ApplyResult { recreated: false, detached: false })),
            test_only ==> *final(self) == *old(self),
            old(self).has_output(output_id) ==> ({
                let loc = old(self).output_loc(output_id);
                let s = old(self).surface_at(loc);
                let cfg = s.output.config;
                let modes = s.output.modes@;
                let sel = has_size_match(modes, cfg.mode_w, cfg.mode_h);
                let m = modes[best_mode_idx(modes, cfg.mode_w, cfg.mode_h, cfg.refresh_target_mhz)];
                &&& (test_only ==> r == (if cfg.enabled && !sel {
                    Err::<ApplyResult, ConfigError>(ConfigError::NoMatchingMode)
                } else {
                    Ok::<ApplyResult, ConfigError>((ApplyResult { recreated: false, detached: false }))
                }))
                &&& (cfg.enabled && !sel ==> *final(self) == *old(self) && r == Err::<
                    ApplyResult,
                    ConfigError,
                >(ConfigError::NoMatchingMode))
                &&& (!test_only && !cfg.enabled && s.swapchain is None ==> *final(self) == *old(self)
                    && r == Ok::<ApplyResult, ConfigError>(
                    (ApplyResult { recreated: false, detached: false }),
                ))
                &&& (!test_only && !cfg.enabled && s.swapchain is Some ==> {
                    &&& surface_replaced(
                        *old(self),
                        *final(self),
                        loc,
                        (Surface { swapchain: None, pending: false, render_timer: None, ..s }),
                    )
                    &&& (s.render_timer matches Some(t) ==> !final(self).loop_reg.is_registered(t)
                        && (forall|x: u64|
                        x != t ==> (final(self).loop_reg.is_registered(x) <==> old(
                            self,
                        ).loop_reg.is_registered(x))) && final(self).loop_reg.next_token == old(
                        self,
                    ).loop_reg.next_token)
                    &&& (s.render_timer is None ==> final(self).loop_reg == old(self).loop_reg)
                    &&& r == Ok::<ApplyResult, ConfigError>(
                        (ApplyResult { recreated: false, detached: true }),
                    )
                })
                &&& (!test_only && cfg.enabled && sel && s.swapchain is Some ==> {
                    if cfg.vrr != s.vrr && vrr_outcome is None {
                        &&& *final(self) == *old(self)
                        &&& r == Err::<ApplyResult, ConfigError>(ConfigError::VrrFailed)
                    } else {
                        &&& surface_replaced(
                            *old(self),
                            *final(self),
                            loc,
                            (Surface {
                                vrr: if cfg.vrr != s.vrr {
                                    vrr_outcome.unwrap()
                                } else {
                                    s.vrr
                                },
                                swapchain: Some((Swapchain { mode: m, ..s.swapchain.unwrap() })),
                                ..s
                            }),
                        )
                        &&& final(self).loop_reg == old(self).loop_reg
                        &&& r == Ok::<ApplyResult, ConfigError>(
                            (ApplyResult { recreated: false, detached: false }),
                        )
                    }
                })
                &&& (!test_only && cfg.enabled && sel && s.swapchain is None ==> {
                    let v = (match vrr_outcome {
                        Some(b) => b,
                        None => false,
                    });
                    if !create_ok {
                        &&& surface_replaced(
                            *old(self),
                            *final(self),
                            loc,
                            (Surface { vrr: v, refresh_mhz: m.refresh_mhz, ..s }),
                        )
                        &&& final(self).loop_reg == old(self).loop_reg
                        &&& r == Err::<ApplyResult, ConfigError>(ConfigError::SwapchainFailed)
                    } else {
                        &&& surface_replaced(
                            *old(self),
                            *final(self),
                            loc,
                            (Surface {
                                vrr: v,
                                refresh_mhz: m.refresh_mhz,
                                swapchain: Some(
                                    (Swapchain { mode: m, queued: false, dirty: false }),
                                ),
                                pending: true,
                                render_timer: if s.pending {
                                    s.render_timer
                                } else {
                                    Some(old(self).loop_reg.next_token)
                                },
                                ..s
                            }),
                        )
                        &&& (s.pending ==> final(self).loop_reg == old(self).loop_reg)
                        &&& (!s.pending ==> final(self).loop_reg.registered@
                            == old(self).loop_reg.registered@.push(old(self).loop_reg.next_token)
                            && final(self).loop_reg.next_token == old(self).loop_reg.next_token + 1)
                        &&& r == Ok::<ApplyResult, ConfigError>(
                            (ApplyResult { recreated: true, detached: false }),
                        )
                    }
                })
            }),
    {
        let loc = match self.locate_output(output_id) {
            Some(l) => l,
            None => {
                return Ok(ApplyResult { recreated: false, detached: false });
            },
        };
        let (i, j) = loc;
        let cfg = self.devices[i].surfaces[j].1.output.config;
        if !cfg.enabled {
            if test_only {
                return Ok(ApplyResult { recreated: false, detached: false });
            }
            if self.devices[i].surfaces[j].1.swapchain.is_none() {
                return Ok(ApplyResult { recreated: false, detached: false });
            }
            let tok_opt = self.devices[i].surfaces[j].1.render_timer;
            let mut d = self.devices.remove(i);
            let mut e = d.surfaces.remove(j);
            e.1.swapchain = None;
            e.1.pending = false;
            e.1.render_timer = None;
            d.surfaces.insert(j, e);
            self.devices.insert(i, d);
            if let Some(tok) = tok_opt {
                self.loop_reg.deregister(tok);
            }
            proof {
                assert(self.devices@ =~= old(self).devices@.update(
                    i as int,
                    self.devices@[i as int],
                ));
                assert(self.devices@[i as int].surfaces@ =~= old(self).devices@[i as int].surfaces@
                    .update(j as int, self.devices@[i as int].surfaces@[j as int]));
                lemma_wf_after_surface_replace(*old(self), *self, i as int, j as int, None, tok_opt);
            }
            return Ok(ApplyResult { recreated: false, detached: true });
        }
        let mi = match select_mode(
            &self.devices[i].surfaces[j].1.output.modes,
            cfg.mode_w,
            cfg.mode_h,
            cfg.refresh_target_mhz,
        ) {
            Some(mi) => mi,
            None => {
                return Err(ConfigError::NoMatchingMode);
            },
        };
        proof {
            lemma_best_mode_idx_unique(
                self.devices@[i as int].surfaces@[j as int].1.output.modes@,
                cfg.mode_w,
                cfg.mode_h,
                cfg.refresh_target_mhz,
                mi as int,
            );
        }
        let m = self.devices[i].surfaces[j].1.output.modes[mi];
        if test_only {
            return Ok(ApplyResult { recreated: false, detached: false });
        }
        if self.devices[i].surfaces[j].1.swapchain.is_some() {
            let cur_vrr = self.devices[i].surfaces[j].1.vrr;
            let new_vrr: bool;
            if cfg.vrr != cur_vrr {
                match vrr_outcome {
                    None => {
                        return Err(ConfigError::VrrFailed);
                    },
                    Some(v) => {
                        new_vrr = v;
                    },
                }
            } else {
                new_vrr = cur_vrr;
            }
            let mut d = self.devices.remove(i);
            let mut e = d.surfaces.remove(j);
            e.1.vrr = new_vrr;
            match &mut e.1.swapchain {
                Some(sc) => {
                    sc.mode = m;
                },
                None => {},
            }
            d.surfaces.insert(j, e);
            self.devices.insert(i, d);
            proof {
                assert(self.devices@ =~= old(self).devices@.update(
                    i as int,
                    self.devices@[i as int],
                ));
                assert(self.devices@[i as int].surfaces@ =~= old(self).devices@[i as int].surfaces@
                    .update(j as int, self.devices@[i as int].surfaces@[j as int]));
                lemma_wf_after_surface_replace(*old(self), *self, i as int, j as int, None, None);
            }
            return Ok(ApplyResult { recreated: false, detached: false });
        }
        let v = match vrr_outcome {
            Some(b) => b,
            None => false,
        };
        if !create_ok {
            let mut d = self.devices.remove(i);
            let mut e = d.surfaces.remove(j);
            e.1.vrr = v;
            e.1.refresh_mhz = m.refresh_mhz;
            d.surfaces.insert(j, e);
            self.devices.insert(i, d);
            proof {
                assert(self.devices@ =~= old(self).devices@.update(
                    i as int,
                    self.devices@[i as int],
                ));
                assert(self.devices@[i as int].surfaces@ =~= old(self).devices@[i as int].surfaces@
                    .update(j as int, self.devices@[i as int].surfaces@[j as int]));
                lemma_wf_after_surface_replace(*old(self), *self, i as int, j as int, None, None);
            }
            return Err(ConfigError::SwapchainFailed);
        }
        let was_pending = self.devices[i].surfaces[j].1.pending;
        let mut new_tok: u64 = 0;
        let mut d = self.devices.remove(i);
        let mut e = d.surfaces.remove(j);
        e.1.vrr = v;
        e.1.refresh_mhz = m.refresh_mhz;
        e.1.swapchain = Some(Swapchain { mode: m, queued: false, dirty: false });
        if !e.1.pending {
            let t = self.loop_reg.register();
            new_tok = t;
            e.1.pending = true;
            e.1.render_timer = Some(t);
        }
        d.surfaces.insert(j, e);
        self.devices.insert(i, d);
        proof {
            assert(self.devices@ =~= old(self).devices@.update(
                i as int,
                self.devices@[i as int],
            ));
            assert(self.devices@[i as int].surfaces@ =~= old(self).devices@[i as int].surfaces@
                .update(j as int, self.devices@[i as int].surfaces@[j as int]));
            if !was_pending {
                lemma_wf_after_surface_replace(
                    *old(self),
                    *self,
                    i as int,
                    j as int,
                    Some(new_tok),
                    None,
                );
            } else {
                lemma_wf_after_surface_replace(*old(self), *self, i as int, j as int, None, None);
            }
        }
        Ok(ApplyResult { recreated: true, detached: false })
    }

    /// Handle a hot-plug "added" notification for a fresh GPU.  A no-op
    /// while the session is inactive.  The driver has already opened the
    /// device, derived `render_node`, probed atomic support, tried to create
    /// the client-facing endpoint (`socket_globals`), enumerated the
    /// connector/CRTC pairing (`config`) and gathered a connector report for
    /// each pairing (`infos`, `None` where gathering failed — that output is
    /// skipped, its siblings continue).  One surface is created per reported
    /// pairing, positioned left-to-right starting at `start_w` by summing
    /// the widths of the outputs placed before it, and the identities of the
    /// published logical outputs are returned in order.
    pub fn device_added(
        &mut self,
        node: u64,
        render_node: u64,
        supports_atomic: bool,
        socket_globals: Option<(u64, u64)>,
        config: &Vec<(u32, u32)>,
        infos: &Vec<Option<ConnectorInfo>>,
        start_w: i32,
    ) -> (added_ids: Vec<u64>)
        requires
            old(self).wf(),
            !old(self).has_device(node),
            config_conns_unique(config@),
            config_crtcs_unique(config@),
            infos@.len() == config@.len(),
            forall|k: int|
                0 <= k < infos@.len() ==> (#[trigger] infos@[k] matches Some(info)
                    ==> info.modes@.len() > 0),
            old(self).loop_reg.can_register(2),
            old(self).next_output_id + config@.len() <= u64::MAX,
            start_w + width_sum(
                kept_setups(config@, infos@, Seq::empty()),
                kept_setups(config@, infos@, Seq::empty()).len() as int,
            ) <= i32::MAX,
        ensures
            final(self).wf(),
            !old(self).session_active ==> *final(self) == *old(self) && added_ids@.len() == 0,
            old(self).session_active ==> ({
                let kept = kept_setups(config@, infos@, Seq::empty());
                let dev = final(self).devices@[old(self).devices@.len() as int];
                &&& final(self).devices@.len() == old(self).devices@.len() + 1
                &&& forall|i: int|
                    0 <= i < old(self).devices@.len() ==> final(self).devices@[i] == old(
                        self,
                    ).devices@[i]
                &&& dev.node == node
                &&& dev.render_node == render_node
                &&& dev.supports_atomic == supports_atomic
                &&& dev.event_token is Some
                &&& (socket_globals matches Some(g) ==> dev.socket matches Some(s)
                    && s.dmabuf_global == g.0 && s.drm_global == g.1)
                &&& (socket_globals is None ==> dev.socket is None)
                &&& dev.surfaces@.len() == kept.len()
                &&& forall|k: int|
                    #![trigger dev.surfaces@[k]]
                    0 <= k < kept.len() ==> dev.surfaces@[k].0 == kept[k].0.0 && surface_matches(
                        dev.surfaces@[k].1,
                        kept[k].0.1,
                        kept[k].1,
                        dev.surfaces@[k].1.output.pos_x,
                        0,
                        (old(self).next_output_id + k) as u64,
                    ) && dev.surfaces@[k].1.output.pos_x == start_w + width_sum(kept, k)
                &&& added_ids@.len() == kept.len()
                &&& forall|k: int|
                    0 <= k < kept.len() ==> #[trigger] added_ids@[k] == old(self).next_output_id + k
                &&& final(self).next_output_id == old(self).next_output_id + kept.len()
                &&& final(self).primary == old(self).primary
                &&& final(self).session_active == old(self).session_active
                &&& forall|t: u64|
                    old(self).loop_reg.is_registered(t) ==> final(self).loop_reg.is_registered(t)
            }),
    {
        if !self.session_active {
            return Vec::new();
        }
        let ev_tok = self.loop_reg.register();
        let socket = match socket_globals {
            Some(g) => {
                let st = self.loop_reg.register();
                Some(Socket { dmabuf_global: g.0, drm_global: g.1, token: st })
            },
            None => None,
        };
        let mut dev = Device {
            node,
            render_node,
            supports_atomic,
            surfaces: Vec::new(),
            event_token: Some(ev_tok),
            socket,
        };
        let ghost lr1 = self.loop_reg;
        let ghost n0 = old(self).next_output_id;
        let ghost kfull = kept_setups(config@, infos@, Seq::empty());
        let mut ids: Vec<u64> = Vec::new();
        let mut w: i32 = start_w;
        let mut idx: usize = 0;
        proof {
            assert(config@.take(0) =~= Seq::<(u32, u32)>::empty());
            assert(infos@.take(0) =~= Seq::<Option<ConnectorInfo>>::empty());
        }
        while idx < config.len()
            invariant
                0 <= idx <= config@.len(),
                infos@.len() == config@.len(),
                config_conns_unique(config@),
                config_crtcs_unique(config@),
                forall|k: int|
                    0 <= k < infos@.len() ==> (#[trigger] infos@[k] matches Some(info)
                        ==> info.modes@.len() > 0),
                kfull == kept_setups(config@, infos@, Seq::empty()),
                start_w + width_sum(kfull, kfull.len() as int) <= i32::MAX,
                n0 + config@.len() <= u64::MAX,
                self.devices@ == old(self).devices@,
                self.primary == old(self).primary,
                self.session_active == old(self).session_active,
                self.loop_reg == lr1,
                dev.node == node,
                dev.render_node == render_node,
                dev.supports_atomic == supports_atomic,
                dev.event_token == Some(ev_tok),
                dev.socket == socket,
                dev.wf(),
                ({
                    let kcur = kept_setups(config@.take(idx as int), infos@.take(idx as int), Seq::empty());
                    &&& dev.surfaces@.len() == kcur.len()
                    &&& forall|k: int|
                        #![trigger dev.surfaces@[k]]
                        0 <= k < kcur.len() ==> dev.surfaces@[k].0 == kcur[k].0.0
                            && surface_matches(
                            dev.surfaces@[k].1,
                            kcur[k].0.1,
                            kcur[k].1,
                            dev.surfaces@[k].1.output.pos_x,
                            0,
                            (n0 + k) as u64,
                        ) && dev.surfaces@[k].1.output.pos_x == start_w + width_sum(kcur, k)
                    &&& w == start_w + width_sum(kcur, kcur.len() as int)
                    &&& self.next_output_id == n0 + kcur.len()
                    &&& ids@.len() == kcur.len()
                    &&& forall|k: int| 0 <= k < kcur.len() ==> #[trigger] ids@[k] == n0 + k
                }),
            decreases config@.len() - idx,
        {
            let ghost kcur = kept_setups(config@.take(idx as int), infos@.take(idx as int), Seq::empty());
            proof {
                lemma_kept_setups_step(config@, infos@, Seq::empty(), idx as int);
                lemma_kept_setups_len(
                    config@.take(idx as int),
                    infos@.take(idx as int),
                    Seq::empty(),
                );
                assert(config@.take(idx as int).len() == idx);
            }
            let (conn, crtc) = config[idx];
            if let Some(info) = &infos[idx] {
                let ghost knext = kept_setups(
                    config@.take(idx as int + 1),
                    infos@.take(idx as int + 1),
                    Seq::empty(),
                );
                proof {
                    assert(knext == kcur.push(((crtc, conn), *info)));
                    // the new pairing collides with no surface created so far
                    lemma_kept_setups_from_config(
                        config@.take(idx as int),
                        infos@.take(idx as int),
                        Seq::empty(),
                    );
                    assert(!dev.has_crtc(crtc)) by {
                        if dev.has_crtc(crtc) {
                            let k = choose|k: int|
                                0 <= k < dev.surfaces@.len() && (#[trigger] dev.surfaces@[k]).0
                                    == crtc;
                            assert(kcur[k].0.0 == crtc);
                            let k2 = choose|k2: int|
                                0 <= k2 < config@.take(idx as int).len() && #[trigger] config@.take(
                                    idx as int,
                                )[k2] == (kcur[k].0.1, kcur[k].0.0);
                            assert(config@[k2].1 == crtc);
                            assert(config@[idx as int].1 == crtc);
                        }
                    }
                    assert(!dev.has_connector(conn)) by {
                        if dev.has_connector(conn) {
                            let k = choose|k: int|
                                0 <= k < dev.surfaces@.len() && (
                                #[trigger] dev.surfaces@[k]).1.connector == conn;
                            assert(kcur[k].0.1 == conn);
                            let k2 = choose|k2: int|
                                0 <= k2 < config@.take(idx as int).len() && #[trigger] config@.take(
                                    idx as int,
                                )[k2] == (kcur[k].0.1, kcur[k].0.0);
                            assert(config@[k2].0 == conn);
                            assert(config@[idx as int].0 == conn);
                        }
                    }
                    lemma_setup_step_bounds(config@, infos@, Seq::empty(), idx as int);
                }
                let sm = crate::device::find_setup_mode(info);
                let id = self.next_output_id;
                dev.setup_surface(crtc, conn, w, 0, info, id);
                self.next_output_id = self.next_output_id + 1;
                ids.push(id);
                w = w + sm.width as i32;
                proof {
                    let kn = knext;
                    assert(dev.surfaces@.len() == kn.len());
                    assert forall|k: int|
                        #![trigger dev.surfaces@[k]]
                        0 <= k < kn.len() implies dev.surfaces@[k].0 == kn[k].0.0
                        && surface_matches(
                        dev.surfaces@[k].1,
                        kn[k].0.1,
                        kn[k].1,
                        dev.surfaces@[k].1.output.pos_x,
                        0,
                        (n0 + k) as u64,
                    ) && dev.surfaces@[k].1.output.pos_x == start_w + width_sum(kn, k) by {
                        lemma_width_sum_agree(kcur, kn, k);
                    }
                }
            }
            idx = idx + 1;
            proof {
                if infos@[idx - 1] is None {
                    assert(kept_setups(
                        config@.take(idx as int),
                        infos@.take(idx as int),
                        Seq::empty(),
                    ) == kcur);
                }
            }
        }
        proof {
            assert(config@.take(config@.len() as int) =~= config@);
            assert(infos@.take(infos@.len() as int) =~= infos@);
        }
        self.devices.push(dev);
        proof {
            let pre = *old(self);
            assert(self.devices@ == pre.devices@.push(self.devices@[pre.devices@.len() as int]));
            let d = self.devices@[pre.devices@.len() as int];
            assert(forall|t: u64|
                #[trigger] d.uses_token(t) ==> self.loop_reg.is_registered(t)
                    && !pre.loop_reg.is_registered(t)) by {
                assert forall|t: u64| #[trigger]
                    d.uses_token(t) implies self.loop_reg.is_registered(t)
                    && !pre.loop_reg.is_registered(t) by {
                    if d.event_token == Some(t) {
                    } else if d.socket matches Some(s) && s.token == t {
                    } else {
                        let j = choose|j: int|
                            0 <= j < d.surfaces@.len() && (#[trigger] d.surfaces@[j]).1.render_timer
                                == Some(t);
                        assert(false);
                    }
                }
            }
            lemma_wf_after_device_push(pre, *self, d);
        }
        ids
    }

    /// Handle a hot-plug "removed" notification.  Unconditional — even with
    /// the session inactive the resources are released.  Every surface's
    /// scheduled render is cancelled, the device's completion-stream
    /// registration and its endpoint's registration are removed (no token of
    /// the device stays registered, so no callback can fire against the
    /// freed state), and the device's logical outputs are returned in order
    /// so the driver can publish their removal.
    pub fn device_removed(&mut self, node: u64) -> (removed: Vec<Output>)
        requires
            old(self).wf(),
        ensures
            final(self).wf(),
            !old(self).has_device(node) ==> *final(self) == *old(self) && removed@.len() == 0,
            old(self).has_device(node) ==> ({
                let di = old(self).device_loc(node);
                let d0 = old(self).devices@[di];
                &&& final(self).devices@ == old(self).devices@.remove(di)
                &&& removed@.len() == d0.surfaces@.len()
                &&& forall|k: int|
                    0 <= k < d0.surfaces@.len() ==> #[trigger] removed@[k]
                        == d0.surfaces@[k].1.output
                &&& forall|t: u64|
                    #[trigger] d0.uses_token(t) ==> !final(self).loop_reg.is_registered(t)
                &&& forall|t: u64|
                    !(#[trigger] d0.uses_token(t)) ==> (final(self).loop_reg.is_registered(t)
                        <==> old(self).loop_reg.is_registered(t))
                &&& final(self).loop_reg.next_token == old(self).loop_reg.next_token
                &&& final(self).primary == old(self).primary
                &&& final(self).session_active == old(self).session_active
                &&& final(self).next_output_id == old(self).next_output_id
            }),
    {
        let di = match self.device_index(node) {
            Some(i) => i,
            None => {
                return Vec::new();
            },
        };
        proof {
            let c = self.device_loc(node);
            assert(0 <= c < self.devices@.len() && self.devices@[c].node == node);
            assert(c == di as int);
        }
        let mut d = self.devices.remove(di);
        let ghost surf0 = d.surfaces@;
        let ghost d0 = old(self).devices@[di as int];
        let mut removed_out: Vec<Output> = Vec::new();
        proof {
            assert(surf0.take(0) =~= Seq::<(u32, Surface)>::empty());
            assert(surf0.skip(0) =~= surf0);
        }
        while d.surfaces.len() > 0
            invariant
                old(self).wf(),
                0 <= di < old(self).devices@.len(),
                d0 == old(self).devices@[di as int],
                surf0 == d0.surfaces@,
                d.event_token == d0.event_token,
                d.socket == d0.socket,
                removed_out@.len() <= surf0.len(),
                d.surfaces@ == surf0.skip(removed_out@.len() as int),
                forall|k: int|
                    0 <= k < removed_out@.len() ==> #[trigger] removed_out@[k]
                        == surf0[k].1.output,
                self.devices@ == old(self).devices@.remove(di as int),
                self.primary == old(self).primary,
                self.session_active == old(self).session_active,
                self.next_output_id == old(self).next_output_id,
                self.loop_reg.wf(),
                self.loop_reg.next_token == old(self).loop_reg.next_token,
                forall|t: u64|
                    self.loop_reg.is_registered(t) <==> (old(self).loop_reg.is_registered(t)
                        && !stores_timer(surf0.take(removed_out@.len() as int), t)),
            decreases d.surfaces@.len(),
        {
            let ghost p = removed_out@.len() as int;
            let (_c, s) = d.surfaces.remove(0);
            proof {
                assert(surf0.skip(p)[0] == surf0[p]);
                assert(d.surfaces@ =~= surf0.skip(p + 1));
                assert(surf0.take(p + 1).drop_last() =~= surf0.take(p));
                assert(surf0.take(p + 1).last() == surf0[p]);
            }
            if let Some(t) = s.render_timer {
                self.loop_reg.deregister(t);
            }
            removed_out.push(s.output);
            proof {
                assert forall|t2: u64|
                    self.loop_reg.is_registered(t2) <==> (old(self).loop_reg.is_registered(t2)
                        && !stores_timer(surf0.take(p + 1), t2)) by {
                    if stores_timer(surf0.take(p + 1), t2) {
                        let k = choose|k: int|
                            0 <= k < surf0.take(p + 1).len() && (
                            #[trigger] surf0.take(p + 1)[k]).1.render_timer == Some(t2);
                        if k < p {
                            assert(stores_timer(surf0.take(p), t2)) by {
                                assert(surf0.take(p)[k].1.render_timer == Some(t2));
                            }
                        } else {
                            assert(surf0[p].1.render_timer == Some(t2));
                        }
                    } else {
                        assert(!stores_timer(surf0.take(p), t2)) by {
                            if stores_timer(surf0.take(p), t2) {
                                let k = choose|k: int|
                                    0 <= k < surf0.take(p).len() && (
                                    #[trigger] surf0.take(p)[k]).1.render_timer == Some(t2);
                                assert(surf0.take(p + 1)[k].1.render_timer == Some(t2));
                            }
                        }
                        assert(surf0[p].1.render_timer != Some(t2)) by {
                            if surf0[p].1.render_timer == Some(t2) {
                                assert(surf0.take(p + 1)[p].1.render_timer == Some(t2));
                            }
                        }
                    }
                }
            }
        }
        proof {
            assert(surf0.take(removed_out@.len() as int) =~= surf0);
        }
        let ghost lr_a = self.loop_reg;
        if let Some(t) = d.event_token {
            self.loop_reg.deregister(t);
        }
        let ghost lr_b = self.loop_reg;
        if let Some(s) = d.socket {
            self.loop_reg.deregister(s.token);
        }
        proof {
            assert(forall|t: u64|
                lr_a.is_registered(t) <==> (old(self).loop_reg.is_registered(t) && !stores_timer(
                    surf0,
                    t,
                )));
            assert(forall|t: u64|
                lr_b.is_registered(t) <==> (lr_a.is_registered(t) && d0.event_token != Some(t)));
            assert(forall|t: u64|
                self.loop_reg.is_registered(t) <==> (lr_b.is_registered(t) && !(d0.socket
                    matches Some(s) && s.token == t)));
            assert forall|t: u64| #[trigger]
                d0.uses_token(t) implies !self.loop_reg.is_registered(t) by {
                if d0.event_token == Some(t) {
                    assert(!lr_b.is_registered(t));
                } else if d0.socket matches Some(s) && s.token == t {
                } else {
                    assert(stores_timer(surf0, t));
                    assert(!lr_a.is_registered(t));
                }
            }
            assert forall|t: u64|
                !(#[trigger] d0.uses_token(t)) implies (self.loop_reg.is_registered(t) <==> old(
                self,
            ).loop_reg.is_registered(t)) by {
                assert(!stores_timer(surf0, t)) by {
                    if stores_timer(surf0, t) {
                        let k = choose|k: int|
                            0 <= k < surf0.len() && (#[trigger] surf0[k]).1.render_timer == Some(t);
                        assert(d0.uses_token(t));
                    }
                }
                assert(d0.event_token != Some(t));
                assert(!(d0.socket matches Some(s) && s.token == t));
            }
            lemma_wf_after_device_remove(*old(self), *self, di as int);
        }
        removed_out
    }

    /// Handle a hot-plug "changed" notification: re-enumerate an existing
    /// device and reconcile.  A no-op while the session is inactive or for
    /// an unknown device.  Surfaces whose pairing disappeared are torn down
    /// — their scheduled renders cancelled, their width freed, their
    /// logical outputs returned first for removal — and surfaces for new
    /// pairings are created from the driver's connector reports (`infos`,
    /// parallel to `config`; entries for already-paired connectors are
    /// ignored and a missing report skips that output), positioned at the
    /// running width total.  Returns the removed outputs and the identities
    /// of the added ones.
    #[verifier::rlimit(100)]
    pub fn device_changed(
        &mut self,
        node: u64,
        config: &Vec<(u32, u32)>,
        infos: &Vec<Option<ConnectorInfo>>,
        start_w: i32,
    ) -> (r: (Vec<Output>, Vec<u64>))
        requires
            old(self).wf(),
            config_conns_unique(config@),
            config_crtcs_unique(config@),
            infos@.len() == config@.len(),
            forall|k: int|
                0 <= k < infos@.len() ==> (#[trigger] infos@[k] matches Some(info)
                    ==> info.modes@.len() > 0),
            old(self).next_output_id + config@.len() <= u64::MAX,
            old(self).has_device(node) ==> ({
                let surf0 = old(self).devices@[old(self).device_loc(node)].surfaces@;
                let rem_s = removed_surfaces(surf0, config@);
                let news = kept_setups(config@, infos@, surf0);
                &&& start_w - removed_width_sum(rem_s, rem_s.len() as int) >= i32::MIN
                &&& (start_w - removed_width_sum(rem_s, rem_s.len() as int)) + width_sum(
                    news,
                    news.len() as int,
                ) <= i32::MAX
            }),
        ensures
            final(self).wf(),
            (!old(self).session_active || !old(self).has_device(node)) ==> *final(self) == *old(
                self,
            ) && r.0@.len() == 0 && r.1@.len() == 0,
            old(self).session_active && old(self).has_device(node) ==> ({
                let di = old(self).device_loc(node);
                let d0 = old(self).devices@[di];
                let surf0 = d0.surfaces@;
                let kept_s = kept_surfaces(surf0, config@);
                let rem_s = removed_surfaces(surf0, config@);
                let news = kept_setups(config@, infos@, surf0);
                let w0 = start_w - removed_width_sum(rem_s, rem_s.len() as int);
                let dev = final(self).devices@[di];
                &&& final(self).devices@.len() == old(self).devices@.len()
                &&& forall|i: int|
                    0 <= i < old(self).devices@.len() && i != di ==> final(self).devices@[i] == old(
                        self,
                    ).devices@[i]
                &&& dev == (Device { surfaces: dev.surfaces, ..d0 })
                &&& dev.surfaces@.len() == kept_s.len() + news.len()
                &&& forall|k: int|
                    0 <= k < kept_s.len() ==> #[trigger] dev.surfaces@[k] == kept_s[k]
                &&& forall|k: int|
                    #![trigger news[k]]
                    0 <= k < news.len() ==> dev.surfaces@[kept_s.len() + k].0 == news[k].0.0
                        && surface_matches(
                        dev.surfaces@[kept_s.len() + k].1,
                        news[k].0.1,
                        news[k].1,
                        dev.surfaces@[kept_s.len() + k].1.output.pos_x,
                        0,
                        (old(self).next_output_id + k) as u64,
                    ) && dev.surfaces@[kept_s.len() + k].1.output.pos_x == w0 + width_sum(news, k)
                &&& r.0@.len() == rem_s.len()
                &&& forall|k: int|
                    0 <= k < rem_s.len() ==> #[trigger] r.0@[k] == rem_s[k].1.output
                &&& r.1@.len() == news.len()
                &&& forall|k: int|
                    0 <= k < news.len() ==> #[trigger] r.1@[k] == old(self).next_output_id + k
                &&& final(self).next_output_id == old(self).next_output_id + news.len()
                &&& forall|t: u64|
                    final(self).loop_reg.is_registered(t) <==> (old(self).loop_reg.is_registered(t)
                        && !stores_timer(rem_s, t))
                &&& final(self).loop_reg.next_token == old(self).loop_reg.next_token
                &&& final(self).primary == old(self).primary
                &&& final(self).session_active == old(self).session_active
            }),
    {
        if !self.session_active {
            return (Vec::new(), Vec::new());
        }
        let di = match self.device_index(node) {
            Some(i) => i,
            None => {
                return (Vec::new(), Vec::new());
            },
        };
        proof {
            let c = self.device_loc(node);
            assert(0 <= c < self.devices@.len() && self.devices@[c].node == node);
            assert(c == di as int);
        }
        let ghost d0 = old(self).devices@[di as int];
        let ghost surf0 = d0.surfaces@;
        let ghost kept_g = kept_surfaces(surf0, config@);
        let ghost rem_g = removed_surfaces(surf0, config@);
        let ghost news_g = kept_setups(config@, infos@, surf0);
        let ghost n0 = old(self).next_output_id;
        // Remember the original pairing so freshly created surfaces can be
        // told apart from re-paired ones.
        let mut orig_pairs: Vec<(u32, u32)> = Vec::new();
        let mut q: usize = 0;
        while q < self.devices[di].surfaces.len()
            invariant
                0 <= di < self.devices@.len(),
                *self == *old(self),
                surf0 == self.devices@[di as int].surfaces@,
                0 <= q <= surf0.len(),
                orig_pairs@.len() == q,
                forall|k: int|
                    0 <= k < q ==> #[trigger] orig_pairs@[k] == (
                        surf0[k].0,
                        surf0[k].1.connector,
                    ),
            decreases surf0.len() - q,
        {
            orig_pairs.push((self.devices[di].surfaces[q].0, self.devices[di].surfaces[q].1.connector));
            q = q + 1;
        }
        let mut d = self.devices.remove(di);
        let mut keptv: Vec<(u32, Surface)> = Vec::new();
        let mut removed_out: Vec<Output> = Vec::new();
        let mut w: i32 = start_w;
        proof {
            assert(surf0.take(0) =~= Seq::<(u32, Surface)>::empty());
            assert(surf0.skip(0) =~= surf0);
        }
        while d.surfaces.len() > 0
            invariant
                old(self).wf(),
                old(self).session_active,
                0 <= di < old(self).devices@.len(),
                d0 == old(self).devices@[di as int],
                surf0 == d0.surfaces@,
                rem_g == removed_surfaces(surf0, config@),
                start_w - removed_width_sum(rem_g, rem_g.len() as int) >= i32::MIN,
                d.node == d0.node,
                d.render_node == d0.render_node,
                d.supports_atomic == d0.supports_atomic,
                d.event_token == d0.event_token,
                d.socket == d0.socket,
                d.surfaces@.len() <= surf0.len(),
                d.surfaces@ == surf0.skip((surf0.len() - d.surfaces@.len()) as int),
                self.devices@ == old(self).devices@.remove(di as int),
                self.primary == old(self).primary,
                self.session_active == old(self).session_active,
                self.next_output_id == old(self).next_output_id,
                self.loop_reg.wf(),
                self.loop_reg.next_token == old(self).loop_reg.next_token,
                ({
                    let p = (surf0.len() - d.surfaces@.len()) as int;
                    &&& keptv@ == kept_surfaces(surf0.take(p), config@)
                    &&& removed_out@.len() == removed_surfaces(surf0.take(p), config@).len()
                    &&& forall|k: int|
                        0 <= k < removed_out@.len() ==> #[trigger] removed_out@[k]
                            == removed_surfaces(surf0.take(p), config@)[k].1.output
                    &&& w == start_w - removed_width_sum(
                        removed_surfaces(surf0.take(p), config@),
                        removed_surfaces(surf0.take(p), config@).len() as int,
                    )
                    &&& forall|t: u64|
                        self.loop_reg.is_registered(t) <==> (old(self).loop_reg.is_registered(t)
                            && !stores_timer(removed_surfaces(surf0.take(p), config@), t))
                }),
            decreases d.surfaces@.len(),
        {
            let ghost p = (surf0.len() - d.surfaces@.len()) as int;
            let ghost rem_p = removed_surfaces(surf0.take(p), config@);
            let (c, s) = d.surfaces.remove(0);
            proof {
                assert(surf0.skip(p)[0] == surf0[p]);
                assert(d.surfaces@ =~= surf0.skip(p + 1));
                lemma_partition_step(surf0, config@, p);
            }
            if config_contains(config, s.connector, c) {
                keptv.push((c, s));
            } else {
                if let Some(t) = s.render_timer {
                    self.loop_reg.deregister(t);
                }
                let mw: i32 = match s.output.current_mode {
                    Some(m) => m.width as i32,
                    None => 0,
                };
                proof {
                    let rem_p1 = removed_surfaces(surf0.take(p + 1), config@);
                    assert(rem_p1 == rem_p.push(surf0[p]));
                    lemma_removed_prefix(surf0, config@, p + 1);
                    assert(forall|l: int| 0 <= l < rem_p1.len() ==> rem_g[l] == #[trigger] rem_p1[l])
                        by {
                        assert(forall|l: int|
                            0 <= l < rem_p1.len() ==> #[trigger] rem_g.take(rem_p1.len() as int)[l]
                                == rem_g[l]);
                    }
                    lemma_rws_agree(rem_p1, rem_g, rem_p1.len() as int);
                    lemma_rws_mono(rem_g, rem_p1.len() as int, rem_g.len() as int);
                    lemma_rws_agree(rem_p, rem_p1, rem_p.len() as int);
                    assert(removed_width_sum(rem_p1, rem_p1.len() as int) == removed_width_sum(
                        rem_p,
                        rem_p.len() as int,
                    ) + mw);
                }
                w = w - mw;
                removed_out.push(s.output);
                proof {
                    let rem_p1 = removed_surfaces(surf0.take(p + 1), config@);
                    assert forall|t2: u64|
                        self.loop_reg.is_registered(t2) <==> (old(self).loop_reg.is_registered(t2)
                            && !stores_timer(rem_p1, t2)) by {
                        if stores_timer(rem_p1, t2) {
                            let k = choose|k: int|
                                0 <= k < rem_p1.len() && (#[trigger] rem_p1[k]).1.render_timer
                                    == Some(t2);
                            if k < rem_p.len() {
                                assert(stores_timer(rem_p, t2)) by {
                                    assert(rem_p[k].1.render_timer == Some(t2));
                                }
                            } else {
                                assert(surf0[p].1.render_timer == Some(t2));
                            }
                        } else {
                            assert(!stores_timer(rem_p, t2)) by {
                                if stores_timer(rem_p, t2) {
                                    let k = choose|k: int|
                                        0 <= k < rem_p.len() && (#[trigger] rem_p[k]).1.render_timer
                                            == Some(t2);
                                    assert(rem_p1[k].1.render_timer == Some(t2));
                                }
                            }
                            assert(surf0[p].1.render_timer != Some(t2)) by {
                                if surf0[p].1.render_timer == Some(t2) {
                                    assert(rem_p1[rem_p.len() as int].1.render_timer == Some(t2));
                                }
                            }
                        }
                    }
                }
            }
        }
        proof {
            assert(surf0.take(surf0.len() as int) =~= surf0);
        }
        d.surfaces = keptv;
        proof {
            // The surviving surfaces still satisfy the device invariant.
            lemma_kept_surfaces_unique(surf0, config@);
            lemma_kept_surfaces_elems(surf0, config@);
            assert(d0.wf());
            assert(d.wf()) by {
                assert forall|k: int| 0 <= k < kept_g.len() implies (
                #[trigger] d.surfaces@[k]).1.wf() by {
                    let k2 = choose|k2: int|
                        0 <= k2 < surf0.len() && #[trigger] surf0[k2] == kept_g[k];
                }
                assert(d.tokens_distinct()) by {
                    assert forall|j1: int, j2: int|
                        0 <= j1 < j2 < d.surfaces@.len() implies !((
                    #[trigger] d.surfaces@[j1]).1.render_timer is Some
                        && d.surfaces@[j1].1.render_timer == (
                    #[trigger] d.surfaces@[j2]).1.render_timer) by {
                        if d.surfaces@[j1].1.render_timer is Some && d.surfaces@[j1].1.render_timer
                            == d.surfaces@[j2].1.render_timer {
                            let k1 = choose|k1: int|
                                0 <= k1 < surf0.len() && #[trigger] surf0[k1] == kept_g[j1];
                            let k2 = choose|k2: int|
                                0 <= k2 < surf0.len() && #[trigger] surf0[k2] == kept_g[j2];
                            assert(kept_g[j1].0 != kept_g[j2].0);
                            assert(k1 != k2);
                            if k1 < k2 {
                                assert(!(surf0[k1].1.render_timer is Some && surf0[k1].1.render_timer
                                    == surf0[k2].1.render_timer));
                            } else {
                                assert(!(surf0[k2].1.render_timer is Some && surf0[k2].1.render_timer
                                    == surf0[k1].1.render_timer));
                            }
                        }
                    }
                    if let Some(t) = d.event_token {
                        assert forall|j: int| 0 <= j < d.surfaces@.len() implies (
                        #[trigger] d.surfaces@[j]).1.render_timer != Some(t) by {
                            if d.surfaces@[j].1.render_timer == Some(t) {
                                let k = choose|k: int|
                                    0 <= k < surf0.len() && #[trigger] surf0[k] == kept_g[j];
                            }
                        }
                    }
                    if let Some(sk) = d.socket {
                        assert forall|j: int| 0 <= j < d.surfaces@.len() implies (
                        #[trigger] d.surfaces@[j]).1.render_timer != Some(sk.token) by {
                            if d.surfaces@[j].1.render_timer == Some(sk.token) {
                                let k = choose|k: int|
                                    0 <= k < surf0.len() && #[trigger] surf0[k] == kept_g[j];
                            }
                        }
                    }
                }
            }
        }
        let ghost lr1 = self.loop_reg;
        let mut ids: Vec<u64> = Vec::new();
        let w0 = w;
        let mut idx: usize = 0;
        proof {
            assert(config@.take(0) =~= Seq::<(u32, u32)>::empty());
            assert(infos@.take(0) =~= Seq::<Option<ConnectorInfo>>::empty());
            lemma_rws_mono(rem_g, 0, rem_g.len() as int);
        }
        while idx < config.len()
            invariant
                0 <= idx <= config@.len(),
                infos@.len() == config@.len(),
                config_conns_unique(config@),
                config_crtcs_unique(config@),
                forall|k: int|
                    0 <= k < infos@.len() ==> (#[trigger] infos@[k] matches Some(info)
                        ==> info.modes@.len() > 0),
                old(self).wf(),
                old(self).session_active,
                0 <= di < old(self).devices@.len(),
                d0 == old(self).devices@[di as int],
                surf0 == d0.surfaces@,
                kept_g == kept_surfaces(surf0, config@),
                news_g == kept_setups(config@, infos@, surf0),
                n0 == old(self).next_output_id,
                n0 + config@.len() <= u64::MAX,
                w0 + width_sum(news_g, news_g.len() as int) <= i32::MAX,
                orig_pairs@.len() == surf0.len(),
                forall|k: int|
                    0 <= k < surf0.len() ==> #[trigger] orig_pairs@[k] == (
                        surf0[k].0,
                        surf0[k].1.connector,
                    ),
                self.devices@ == old(self).devices@.remove(di as int),
                self.primary == old(self).primary,
                self.session_active == old(self).session_active,
                self.loop_reg == lr1,
                d.node == d0.node,
                d.render_node == d0.render_node,
                d.supports_atomic == d0.supports_atomic,
                d.event_token == d0.event_token,
                d.socket == d0.socket,
                d.wf(),
                forall|k: int| 0 <= k < kept_g.len() ==> #[trigger] d.surfaces@[k] == kept_g[k],
                ({
                    let ncur = kept_setups(config@.take(idx as int), infos@.take(idx as int), surf0);
                    &&& d.surfaces@.len() == kept_g.len() + ncur.len()
                    &&& forall|k: int|
                        #![trigger ncur[k]]
                        0 <= k < ncur.len() ==> d.surfaces@[kept_g.len() + k].0 == ncur[k].0.0
                            && surface_matches(
                            d.surfaces@[kept_g.len() + k].1,
                            ncur[k].0.1,
                            ncur[k].1,
                            d.surfaces@[kept_g.len() + k].1.output.pos_x,
                            0,
                            (n0 + k) as u64,
                        ) && d.surfaces@[kept_g.len() + k].1.output.pos_x == w0 + width_sum(ncur, k)
                    &&& w == w0 + width_sum(ncur, ncur.len() as int)
                    &&& self.next_output_id == n0 + ncur.len()
                    &&& ids@.len() == ncur.len()
                    &&& forall|k: int| 0 <= k < ncur.len() ==> #[trigger] ids@[k] == n0 + k
                }),
            decreases config@.len() - idx,
        {
            let ghost ncur = kept_setups(config@.take(idx as int), infos@.take(idx as int), surf0);
            proof {
                lemma_kept_setups_step(config@, infos@, surf0, idx as int);
                lemma_kept_setups_len(
                    config@.take(idx as int),
                    infos@.take(idx as int),
                    surf0,
                );
                assert(config@.take(idx as int).len() == idx);
            }
            let (conn, crtc) = config[idx];
            let already = config_contains(&orig_pairs, crtc, conn);
            proof {
                assert(already == paired_in(surf0, crtc, conn)) by {
                    if config_has_pair(orig_pairs@, crtc, conn) {
                        let k = choose|k: int|
                            0 <= k < orig_pairs@.len() && #[trigger] orig_pairs@[k] == (crtc, conn);
                        assert(surf0[k].0 == crtc && surf0[k].1.connector == conn);
                    }
                    if paired_in(surf0, crtc, conn) {
                        let k = choose|k: int|
                            0 <= k < surf0.len() && (#[trigger] surf0[k]).0 == crtc
                                && surf0[k].1.connector == conn;
                        assert(orig_pairs@[k] == (crtc, conn));
                    }
                }
            }
            if !already {
                if let Some(info) = &infos[idx] {
                    let ghost knext = kept_setups(
                        config@.take(idx as int + 1),
                        infos@.take(idx as int + 1),
                        surf0,
                    );
                    proof {
                        assert(knext == ncur.push(((crtc, conn), *info)));
                        assert(forall|k: int|
                            #![trigger ncur[k]]
                            0 <= k < ncur.len() ==> d.surfaces@[(kept_g.len() + k)].0
                                == ncur[k].0.0 && d.surfaces@[(kept_g.len() + k)].1.connector
                                == ncur[k].0.1);
                        lemma_changed_insert_safe(
                            d,
                            surf0,
                            config@,
                            infos@,
                            idx as int,
                            conn,
                            crtc,
                        );
                        lemma_setup_step_bounds(config@, infos@, surf0, idx as int);
                    }
                    let sm = crate::device::find_setup_mode(info);
                    let id = self.next_output_id;
                    d.setup_surface(crtc, conn, w, 0, info, id);
                    self.next_output_id = self.next_output_id + 1;
                    ids.push(id);
                    w = w + sm.width as i32;
                    proof {
                        assert forall|k: int|
                            #![trigger knext[k]]
                            0 <= k < knext.len() implies d.surfaces@[kept_g.len() + k].0
                            == knext[k].0.0 && surface_matches(
                            d.surfaces@[kept_g.len() + k].1,
                            knext[k].0.1,
                            knext[k].1,
                            d.surfaces@[kept_g.len() + k].1.output.pos_x,
                            0,
                            (n0 + k) as u64,
                        ) && d.surfaces@[kept_g.len() + k].1.output.pos_x == w0 + width_sum(
                            knext,
                            k,
                        ) by {
                            lemma_width_sum_agree(ncur, knext, k);
                        }
                    }
                }
            }
            idx = idx + 1;
            proof {
                if paired_in(surf0, crtc, conn) || infos@[idx - 1] is None {
                    assert(kept_setups(
                        config@.take(idx as int),
                        infos@.take(idx as int),
                        surf0,
                    ) == ncur);
                }
            }
        }
        proof {
            assert(config@.take(config@.len() as int) =~= config@);
            assert(infos@.take(infos@.len() as int) =~= infos@);
        }
        self.devices.insert(di, d);
        proof {
            assert(self.devices@ =~= old(self).devices@.update(
                di as int,
                self.devices@[di as int],
            )) by {
                assert(self.devices@ =~= old(self).devices@.remove(di as int).insert(
                    di as int,
                    self.devices@[di as int],
                ));
            }
            let dev = self.devices@[di as int];
            assert forall|k: int|
                kept_g.len() <= k < dev.surfaces@.len() implies (
            #[trigger] dev.surfaces@[k]).1.render_timer is None && dev.surfaces@[k].1.output.id
                == (n0 + (k - kept_g.len())) as u64 by {
                let kk = k - kept_g.len();
                assert(news_g[kk] == news_g[kk]);
            }
            lemma_changed_wf(*old(self), *self, di as int, config@, infos@);
        }
        (removed_out, ids)
    }

    /// Forget every outstanding render after a session switch: cancel every
    /// surface's render timer, stop treating any submission as in flight and
    /// clear every pending flag.  The hardware state is unknown after a
    /// virtual-terminal switch, so each output must be treated as requiring
    /// a fresh render, which the driver then schedules.
    pub fn reset_pending(&mut self)
        requires
            old(self).wf(),
        ensures
            final(self).wf(),
            final(self).devices@.len() == old(self).devices@.len(),
            forall|i: int|
                0 <= i < old(self).devices@.len() ==> #[trigger] final(self).devices@[i] == (Device {
                    surfaces: final(self).devices@[i].surfaces,
                    ..old(self).devices@[i]
                }) && final(self).devices@[i].surfaces@.len() == old(
                    self,
                ).devices@[i].surfaces@.len(),
            forall|i: int, j: int|
                #![trigger final(self).devices@[i].surfaces@[j]]
                0 <= i < old(self).devices@.len() && 0 <= j < old(self).devices@[i].surfaces@.len()
                    ==> final(self).devices@[i].surfaces@[j] == (
                    old(self).devices@[i].surfaces@[j].0,
                    surface_reset(old(self).devices@[i].surfaces@[j].1),
                ),
            forall|t: u64|
                final(self).loop_reg.is_registered(t) <==> (old(self).loop_reg.is_registered(t)
                    && !timer_somewhere(old(self).devices@, t)),
            final(self).loop_reg.next_token == old(self).loop_reg.next_token,
            final(self).primary == old(self).primary,
            final(self).session_active == old(self).session_active,
            final(self).next_output_id == old(self).next_output_id,
    {
        let ghost devs0 = old(self).devices@;
        let mut i: usize = 0;
        while i < self.devices.len()
            invariant
                old(self).wf(),
                self.wf(),
                0 <= i <= devs0.len(),
                devs0 == old(self).devices@,
                self.devices@.len() == devs0.len(),
                forall|i2: int|
                    0 <= i2 < devs0.len() ==> #[trigger] self.devices@[i2] == (Device {
                        surfaces: self.devices@[i2].surfaces,
                        ..devs0[i2]
                    }) && self.devices@[i2].surfaces@.len() == devs0[i2].surfaces@.len(),
                forall|i2: int, j2: int|
                    #![trigger self.devices@[i2].surfaces@[j2]]
                    0 <= i2 < devs0.len() && 0 <= j2 < devs0[i2].surfaces@.len() ==> (if i2 < i {
                        self.devices@[i2].surfaces@[j2] == (
                            devs0[i2].surfaces@[j2].0,
                            surface_reset(devs0[i2].surfaces@[j2].1),
                        )
                    } else {
                        self.devices@[i2].surfaces@[j2] == devs0[i2].surfaces@[j2]
                    }),
                forall|t: u64|
                    self.loop_reg.is_registered(t) <==> (old(self).loop_reg.is_registered(t)
                        && !timer_before(devs0, i as int, 0, t)),
                self.loop_reg.next_token == old(self).loop_reg.next_token,
                self.primary == old(self).primary,
                self.session_active == old(self).session_active,
                self.next_output_id == old(self).next_output_id,
            decreases devs0.len() - i,
        {
            let mut j: usize = 0;
            while j < self.devices[i].surfaces.len()
                invariant
                    old(self).wf(),
                    self.wf(),
                    0 <= i < devs0.len(),
                    0 <= j <= devs0[i as int].surfaces@.len(),
                    devs0 == old(self).devices@,
                    self.devices@.len() == devs0.len(),
                    forall|i2: int|
                        0 <= i2 < devs0.len() ==> #[trigger] self.devices@[i2] == (Device {
                            surfaces: self.devices@[i2].surfaces,
                            ..devs0[i2]
                        }) && self.devices@[i2].surfaces@.len() == devs0[i2].surfaces@.len(),
                    forall|i2: int, j2: int|
                        #![trigger self.devices@[i2].surfaces@[j2]]
                        0 <= i2 < devs0.len() && 0 <= j2 < devs0[i2].surfaces@.len() ==> (if i2 < i
                            || (i2 == i && j2 < j) {
                            self.devices@[i2].surfaces@[j2] == (
                                devs0[i2].surfaces@[j2].0,
                                surface_reset(devs0[i2].surfaces@[j2].1),
                            )
                        } else {
                            self.devices@[i2].surfaces@[j2] == devs0[i2].surfaces@[j2]
                        }),
                    forall|t: u64|
                        self.loop_reg.is_registered(t) <==> (old(self).loop_reg.is_registered(t)
                            && !timer_before(devs0, i as int, j as int, t)),
                    self.loop_reg.next_token == old(self).loop_reg.next_token,
                    self.primary == old(self).primary,
                    self.session_active == old(self).session_active,
                    self.next_output_id == old(self).next_output_id,
                decreases devs0[i as int].surfaces@.len() - j,
            {
                let ghost pre_step = *self;
                let tok_opt = self.devices[i].surfaces[j].1.render_timer;
                let mut d = self.devices.remove(i);
                let mut e = d.surfaces.remove(j);
                e.1.pending = false;
                e.1.render_timer = None;
                match &mut e.1.swapchain {
                    Some(sc) => {
                        sc.queued = false;
                    },
                    None => {},
                }
                d.surfaces.insert(j, e);
                self.devices.insert(i, d);
                if let Some(t) = tok_opt {
                    self.loop_reg.deregister(t);
                }
                proof {
                    assert(self.devices@ =~= pre_step.devices@.update(
                        i as int,
                        self.devices@[i as int],
                    ));
                    assert(self.devices@[i as int].surfaces@ =~= pre_step.devices@[i as int].surfaces@
                        .update(j as int, self.devices@[i as int].surfaces@[j as int]));
                    lemma_wf_after_surface_replace(
                        pre_step,
                        *self,
                        i as int,
                        j as int,
                        None,
                        tok_opt,
                    );
                    assert(self.devices@[i as int].surfaces@[j as int] == (
                        devs0[i as int].surfaces@[j as int].0,
                        surface_reset(devs0[i as int].surfaces@[j as int].1),
                    ));
                    assert forall|t2: u64|
                        self.loop_reg.is_registered(t2) <==> (old(self).loop_reg.is_registered(t2)
                            && !timer_before(devs0, i as int, j + 1, t2)) by {
                        if timer_before(devs0, i as int, j + 1, t2) {
                            let (i2, j2) = choose|i2: int, j2: int|
                                #![trigger devs0[i2].surfaces@[j2]]
                                0 <= i2 < devs0.len() && 0 <= j2 < devs0[i2].surfaces@.len() && (i2
                                    < i || (i2 == i && j2 < j + 1))
                                    && devs0[i2].surfaces@[j2].1.render_timer == Some(t2);
                            if i2 < i || (i2 == i && j2 < j) {
                                assert(timer_before(devs0, i as int, j as int, t2));
                            } else {
                                assert(i2 == i && j2 == j);
                                assert(tok_opt == Some(t2));
                            }
                        } else {
                            assert(!timer_before(devs0, i as int, j as int, t2)) by {
                                if timer_before(devs0, i as int, j as int, t2) {
                                    let (i2, j2) = choose|i2: int, j2: int|
                                        #![trigger devs0[i2].surfaces@[j2]]
                                        0 <= i2 < devs0.len() && 0 <= j2 < devs0[i2].surfaces@.len()
                                            && (i2 < i || (i2 == i && j2 < j))
                                            && devs0[i2].surfaces@[j2].1.render_timer == Some(t2);
                                    assert(timer_before(devs0, i as int, j + 1, t2));
                                }
                            }
                            assert(tok_opt != Some(t2)) by {
                                if tok_opt == Some(t2) {
                                    assert(devs0[i as int].surfaces@[j as int].1.render_timer
                                        == Some(t2));
                                    assert(timer_before(devs0, i as int, j + 1, t2));
                                }
                            }
                        }
                    }
                }
                j = j + 1;
            }
            i = i + 1;
            proof {
                assert forall|t2: u64|
                    self.loop_reg.is_registered(t2) <==> (old(self).loop_reg.is_registered(t2)
                        && !timer_before(devs0, i as int, 0, t2)) by {
                    if timer_before(devs0, i as int, 0, t2) {
                        let (i2, j2) = choose|i2: int, j2: int|
                            #![trigger devs0[i2].surfaces@[j2]]
                            0 <= i2 < devs0.len() && 0 <= j2 < devs0[i2].surfaces@.len() && (i2 < i
                                || (i2 == i && j2 < 0)) && devs0[i2].surfaces@[j2].1.render_timer
                                == Some(t2);
                        assert(timer_before(devs0, i - 1, devs0[i - 1].surfaces@.len() as int, t2));
                    } else {
                        assert(!timer_before(
                            devs0,
                            i - 1,
                            devs0[i - 1].surfaces@.len() as int,
                            t2,
                        )) by {
                            if timer_before(devs0, i - 1, devs0[i - 1].surfaces@.len() as int, t2) {
                                let (i2, j2) = choose|i2: int, j2: int|
                                    #![trigger devs0[i2].surfaces@[j2]]
                                    0 <= i2 < devs0.len() && 0 <= j2 < devs0[i2].surfaces@.len() && (
                                    i2 < i - 1 || (i2 == i - 1 && j2 < devs0[i
                                        - 1].surfaces@.len())) && devs0[i2].surfaces@[j2].1.render_timer
                                        == Some(t2);
                                assert(timer_before(devs0, i as int, 0, t2));
                            }
                        }
                    }
                }
            }
        }
        proof {
            assert forall|t2: u64|
                self.loop_reg.is_registered(t2) <==> (old(self).loop_reg.is_registered(t2)
                    && !timer_somewhere(devs0, t2)) by {
                if timer_somewhere(devs0, t2) {
                    let (i2, j2) = choose|i2: int, j2: int|
                        #![trigger devs0[i2].surfaces@[j2]]
                        0 <= i2 < devs0.len() && 0 <= j2 < devs0[i2].surfaces@.len()
                            && devs0[i2].surfaces@[j2].1.render_timer == Some(t2);
                    assert(timer_before(devs0, devs0.len() as int, 0, t2));
                } else {
                    assert(!timer_before(devs0, devs0.len() as int, 0, t2)) by {
                        if timer_before(devs0, devs0.len() as int, 0, t2) {
                            let (i2, j2) = choose|i2: int, j2: int|
                                #![trigger devs0[i2].surfaces@[j2]]
                                0 <= i2 < devs0.len() && 0 <= j2 < devs0[i2].surfaces@.len() && (i2
                                    < devs0.len() || (i2 == devs0.len() && j2 < 0))
                                    && devs0[i2].surfaces@[j2].1.render_timer == Some(t2);
                            assert(timer_somewhere(devs0, t2));
                        }
                    }
                }
            }
        }
    }
}

/// After replacing exactly one surface with a well-formed successor that
/// keeps its connector and output identity — optionally registering one
/// fresh timer token for it (`added`) or dropping its registered timer token
/// (`dropped`) — the backend invariant still holds.
proof fn lemma_wf_after_surface_replace(
    pre: KmsState,
    post: KmsState,
    i: int,
    j: int,
    added: Option<u64>,
    dropped: Option<u64>,
)
    requires
        pre.wf(),
        pre.valid_loc((i, j)),
        post.devices@ == pre.devices@.update(
            i,
            (Device {
                surfaces: post.devices@[i].surfaces,
                ..pre.devices@[i]
            }),
        ),
        post.devices@[i].surfaces@ == pre.devices@[i].surfaces@.update(
            j,
            (pre.devices@[i].surfaces@[j].0, post.devices@[i].surfaces@[j].1),
        ),
        post.devices@[i].surfaces@[j].1.wf(),
        post.devices@[i].surfaces@[j].1.connector == pre.devices@[i].surfaces@[j].1.connector,
        post.devices@[i].surfaces@[j].1.output.id == pre.devices@[i].surfaces@[j].1.output.id,
        post.next_output_id == pre.next_output_id,
        !(added is Some && dropped is Some),
        (added is None && dropped is None) ==> post.loop_reg == pre.loop_reg
            && post.devices@[i].surfaces@[j].1.render_timer
            == pre.devices@[i].surfaces@[j].1.render_timer,
        added matches Some(t) ==> !pre.loop_reg.is_registered(t) && post.loop_reg.wf()
            && post.loop_reg.registered@ == pre.loop_reg.registered@.push(t)
            && post.devices@[i].surfaces@[j].1.render_timer == Some(t),
        dropped matches Some(t) ==> pre.devices@[i].surfaces@[j].1.render_timer == Some(t)
            && post.devices@[i].surfaces@[j].1.render_timer is None && post.loop_reg.wf()
            && !post.loop_reg.is_registered(t) && (forall|x: u64|
            x != t ==> (post.loop_reg.is_registered(x) <==> pre.loop_reg.is_registered(x))),
    ensures
        post.wf(),
{
    let pd = pre.devices@[i];
    let qd = post.devices@[i];
    if let Some(t) = added {
        assert(forall|x: u64| pre.loop_reg.is_registered(x) ==> post.loop_reg.is_registered(x)) by {
            assert(forall|k: int|
                0 <= k < pre.loop_reg.registered@.len() ==> post.loop_reg.registered@[k]
                    == #[trigger] pre.loop_reg.registered@[k]);
        }
        assert(post.loop_reg.is_registered(t)) by {
            assert(post.loop_reg.registered@[pre.loop_reg.registered@.len() as int] == t);
        }
    }
    // No token the device stored before equals a freshly added token.
    assert(added matches Some(t) ==> !pd.uses_token(t));
    // The dropped token was stored nowhere but at slot (i, j).
    assert(dropped matches Some(t) ==> {
        &&& pd.event_token != Some(t)
        &&& !(pd.socket matches Some(s) && s.token == t)
        &&& forall|k: int|
            0 <= k < pd.surfaces@.len() && k != j ==> (#[trigger] pd.surfaces@[k]).1.render_timer
                != Some(t)
    }) by {
        if let Some(t) = dropped {
            assert(pd.surfaces@[j].1.render_timer == Some(t));
            assert(pd.tokens_distinct());
            if pd.event_token == Some(t) {
                assert(false);
            }
            if pd.socket matches Some(s) && s.token == t {
                assert(false);
            }
            assert forall|k: int|
                0 <= k < pd.surfaces@.len() && k != j implies (
            #[trigger] pd.surfaces@[k]).1.render_timer != Some(t) by {
                if pd.surfaces@[k].1.render_timer == Some(t) {
                    if k < j {
                        assert(!(pd.surfaces@[k].1.render_timer is Some && pd.surfaces@[k].1.render_timer
                            == pd.surfaces@[j].1.render_timer));
                    } else {
                        assert(!(pd.surfaces@[j].1.render_timer is Some && pd.surfaces@[j].1.render_timer
                            == pd.surfaces@[k].1.render_timer));
                    }
                }
            }
        }
    }
    // Whatever the updated device uses, the old device used it — except a
    // freshly added token.
    assert(forall|t: u64|
        #[trigger] qd.uses_token(t) ==> pd.uses_token(t) || added == Some(t)) by {
        assert forall|t: u64| #[trigger]
            qd.uses_token(t) implies pd.uses_token(t) || added == Some(t) by {
            if qd.event_token == Some(t) || (qd.socket matches Some(s) && s.token == t) {
            } else {
                let j2 = choose|j2: int|
                    0 <= j2 < qd.surfaces@.len() && (#[trigger] qd.surfaces@[j2]).1.render_timer
                        == Some(t);
                if j2 != j {
                    assert(pd.surfaces@[j2].1.render_timer == Some(t));
                } else {
                    if added is None {
                        assert(qd.surfaces@[j].1.render_timer is Some);
                        assert(pd.surfaces@[j].1.render_timer == Some(t));
                    }
                }
            }
        }
    }
    assert(qd.wf()) by {
        assert(forall|k: int|
            0 <= k < qd.surfaces@.len() && k != j ==> #[trigger] qd.surfaces@[k] == pd.surfaces@[k]);
        assert(qd.surfaces@[j].1.wf());
        assert(qd.tokens_distinct()) by {
            assert(pd.tokens_distinct());
            if let Some(t) = added {
                assert(pd.event_token != Some(t));
                assert(!(pd.socket matches Some(s) && s.token == t));
                assert forall|k: int|
                    0 <= k < pd.surfaces@.len() implies (#[trigger] pd.surfaces@[k]).1.render_timer
                    != Some(t) by {
                    if pd.surfaces@[k].1.render_timer == Some(t) {
                        assert(pd.uses_token(t));
                    }
                }
            }
        }
    }
    assert(post.devices_wf()) by {
        assert(forall|k: int|
            0 <= k < post.devices@.len() && k != i ==> #[trigger] post.devices@[k]
                == pre.devices@[k]);
    }
    assert(post.nodes_unique());
    assert(post.tokens_registered()) by {
        assert forall|k: int, t: u64|
            0 <= k < post.devices@.len() && (#[trigger] post.devices@[k].uses_token(t)) implies post
            .loop_reg.is_registered(t) by {
            if k != i {
                assert(pre.devices@[k].uses_token(t));
                assert(pre.loop_reg.is_registered(t));
                if let Some(d) = dropped {
                    assert(t != d) by {
                        if t == d {
                            assert(pd.uses_token(d));
                            assert(pre.devices@[k].uses_token(d));
                        }
                    }
                }
            } else {
                if added == Some(t) {
                } else {
                    assert(pd.uses_token(t));
                    assert(pre.loop_reg.is_registered(t));
                    if let Some(d) = dropped {
                        assert(t != d) by {
                            if t == d {
                                assert(qd.uses_token(d));
                                if qd.event_token == Some(d) || (qd.socket matches Some(s)
                                    && s.token == d) {
                                } else {
                                    let j2 = choose|j2: int|
                                        0 <= j2 < qd.surfaces@.len() && (
                                        #[trigger] qd.surfaces@[j2]).1.render_timer == Some(d);
                                    assert(j2 != j);
                                    assert(pd.surfaces@[j2].1.render_timer == Some(d));
                                }
                            }
                        }
                    }
                }
            }
        }
    }
    assert(post.tokens_device_unique()) by {
        assert forall|i1: int, i2: int, t: u64|
            0 <= i1 < post.devices@.len() && 0 <= i2 < post.devices@.len() && (
            #[trigger] post.devices@[i1].uses_token(t)) && (
            #[trigger] post.devices@[i2].uses_token(t)) implies i1 == i2 by {
            if i1 != i2 {
                if i1 != i && i2 != i {
                    assert(pre.devices@[i1].uses_token(t));
                    assert(pre.devices@[i2].uses_token(t));
                } else {
                    let iu = if i1 == i {
                        i2
                    } else {
                        i1
                    };
                    assert(pre.devices@[iu].uses_token(t));
                    assert(pre.loop_reg.is_registered(t));
                    assert(added != Some(t));
                    assert(pd.uses_token(t));
                }
            }
        }
    }
    assert(post.output_ids_fresh()) by {
        assert forall|i2: int, j2: int|
            0 <= i2 < post.devices@.len() && 0 <= j2 < post.devices@[i2].surfaces@.len() implies (
        #[trigger] post.devices@[i2].surfaces@[j2]).1.output.id < post.next_output_id by {
            assert(post.devices@[i2].surfaces@[j2].1.output.id
                == pre.devices@[i2].surfaces@[j2].1.output.id);
            assert(pre.devices@[i2].surfaces@[j2] == pre.devices@[i2].surfaces@[j2]);
        }
    }
    assert(post.output_ids_unique()) by {
        assert forall|i1: int, j1: int, i2: int, j2: int|
            post.valid_loc((i1, j1)) && post.valid_loc((i2, j2)) && !(i1 == i2 && j1 == j2) implies (
        #[trigger] post.devices@[i1].surfaces@[j1]).1.output.id != (
        #[trigger] post.devices@[i2].surfaces@[j2]).1.output.id by {
            assert(pre.valid_loc((i1, j1)) && pre.valid_loc((i2, j2)));
            assert(post.devices@[i1].surfaces@[j1].1.output.id
                == pre.devices@[i1].surfaces@[j1].1.output.id);
            assert(post.devices@[i2].surfaces@[j2].1.output.id
                == pre.devices@[i2].surfaces@[j2].1.output.id);
            assert(pre.devices@[i1].surfaces@[j1].1.output.id
                != pre.devices@[i2].surfaces@[j2].1.output.id);
        }
    }
    assert(post.output_ids_fresh()) by {
        assert forall|i2: int, j2: int|
            0 <= i2 < post.devices@.len() && 0 <= j2 < post.devices@[i2].surfaces@.len() implies (
        #[trigger] post.devices@[i2].surfaces@[j2]).1.output.id < post.next_output_id by {
            assert(post.devices@[i2].surfaces@[j2].1.output.id == pre.devices@[i2].surfaces@[j2].1.output.id);
            assert(pre.devices@[i2].surfaces@[j2] == pre.devices@[i2].surfaces@[j2]);
        }
    }
    assert(post.output_ids_unique()) by {
        assert forall|i1: int, j1: int, i2: int, j2: int|
            post.valid_loc((i1, j1)) && post.valid_loc((i2, j2)) && !(i1 == i2 && j1 == j2) implies (
        #[trigger] post.devices@[i1].surfaces@[j1]).1.output.id != (
        #[trigger] post.devices@[i2].surfaces@[j2]).1.output.id by {
            assert(pre.valid_loc((i1, j1)) && pre.valid_loc((i2, j2)));
            assert(post.devices@[i1].surfaces@[j1].1.output.id == pre.devices@[i1].surfaces@[j1].1.output.id);
            assert(post.devices@[i2].surfaces@[j2].1.output.id == pre.devices@[i2].surfaces@[j2].1.output.id);
            assert(pre.devices@[i1].surfaces@[j1].1.output.id != pre.devices@[i2].surfaces@[j2].1.output.id);
        }
    }
}

} // verus!
