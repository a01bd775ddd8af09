//! End-to-end tests of the backend state machine: hot-plug lifecycle,
//! output configuration, render scheduling and completion handling.

use kms_backend::backend::KmsState;
use kms_backend::select::{render_node_for_output, select_mode, select_primary_node};
use kms_backend::surface::{RenderOutcome, TimerAction};
use kms_backend::types::{ConnectorInfo, ConfigError, Mode};

fn mode(w: u16, h: u16, refresh_mhz: u32, preferred: bool) -> Mode {
    Mode { width: w, height: h, refresh_mhz, preferred }
}

fn info(name: &str, modes: Vec<Mode>, current: Option<Mode>) -> ConnectorInfo {
    ConnectorInfo {
        interface: name.to_string(),
        manufacturer: "ACME".to_string(),
        model: "Panel".to_string(),
        phys_w: 600,
        phys_h: 340,
        modes,
        current_mode: current,
        vrr_on: false,
    }
}

/// One device with one connector, enabled end to end: the output gets a
/// swapchain and a scheduled render.
fn one_output_state() -> (KmsState, u64) {
    let mut st = KmsState::new(7);
    let config = vec![(10u32, 1u32)];
    let infos = vec![Some(info("DP-1", vec![mode(1920, 1080, 60000, true)], None))];
    let ids = st.device_added(100, 107, true, Some((900, 901)), &config, &infos, 0);
    assert_eq!(ids.len(), 1);
    let id = ids[0];
    let r = st.apply_config_for_output(id, false, Some(false), true).unwrap();
    assert!(r.recreated);
    (st, id)
}

#[test]
fn mode_selection_picks_exact_refresh() {
    let modes = vec![
        mode(1920, 1080, 59940, false),
        mode(1920, 1080, 60000, false),
        mode(1920, 1080, 75000, false),
    ];
    assert_eq!(select_mode(&modes, 1920, 1080, 60000), Some(1));
}

#[test]
fn mode_selection_no_resolution_match() {
    let modes = vec![mode(1280, 720, 60000, false)];
    assert_eq!(select_mode(&modes, 1920, 1080, 60000), None);
}

#[test]
fn mode_selection_tie_goes_to_enumeration_order() {
    // 59 and 61 Hz are equally far from 60 Hz: the earlier mode wins.
    let modes = vec![
        mode(1920, 1080, 59000, false),
        mode(1920, 1080, 61000, false),
    ];
    assert_eq!(select_mode(&modes, 1920, 1080, 60000), Some(0));
}

#[test]
fn mode_selection_ignores_other_resolutions() {
    let modes = vec![
        mode(1280, 720, 60000, false),
        mode(1920, 1080, 50000, false),
        mode(1920, 1080, 30000, false),
    ];
    assert_eq!(select_mode(&modes, 1920, 1080, 60000), Some(1));
}

#[test]
fn render_node_prefers_target_when_listed() {
    let prefs = vec![1, 2, 7, 2];
    assert_eq!(render_node_for_output(7, &prefs), 7);
}

#[test]
fn render_node_prefers_target_below_threshold() {
    let prefs = vec![2, 2];
    assert_eq!(render_node_for_output(7, &prefs), 7);
}

#[test]
fn render_node_majority_wins() {
    // {A, A, B} with A=1, B=2 and the target absent: the majority wins.
    let prefs = vec![1, 1, 2];
    assert_eq!(render_node_for_output(7, &prefs), 1);
}

#[test]
fn render_node_tie_breaks_to_smallest_identity() {
    let prefs = vec![3, 1, 2];
    assert_eq!(render_node_for_output(7, &prefs), 1);
}

#[test]
fn primary_node_override_wins() {
    assert_eq!(select_primary_node(Some(5), Some(3), &vec![Some(1)]), Some(5));
}

#[test]
fn primary_node_seat_primary_next() {
    assert_eq!(select_primary_node(None, Some(3), &vec![Some(1)]), Some(3));
}

#[test]
fn primary_node_first_fallback() {
    assert_eq!(select_primary_node(None, None, &vec![None, Some(4), Some(1)]), Some(4));
    assert_eq!(select_primary_node(None, None, &vec![None, None]), None);
}

#[test]
fn added_device_publishes_one_output_at_origin() {
    let mut st = KmsState::new(7);
    let config = vec![(10u32, 1u32)];
    let infos = vec![Some(info("DP-1", vec![mode(1920, 1080, 60000, true)], None))];
    let ids = st.device_added(100, 107, true, None, &config, &infos, 0);
    assert_eq!(ids.len(), 1);
    let s = &st.devices[0].surfaces[0].1;
    assert_eq!(s.output.pos_x, 0);
    assert_eq!(s.output.name, "DP-1");
    assert_eq!(s.output.current_mode, Some(mode(1920, 1080, 60000, true)));
    assert!(s.swapchain.is_none());
    assert!(!s.pending);
}

#[test]
fn second_device_is_positioned_after_the_first() {
    let mut st = KmsState::new(7);
    let config1 = vec![(10u32, 1u32)];
    let infos1 = vec![Some(info("DP-1", vec![mode(1920, 1080, 60000, true)], None))];
    let ids1 = st.device_added(100, 107, true, None, &config1, &infos1, 0);
    assert_eq!(ids1.len(), 1);

    let config2 = vec![(20u32, 2u32)];
    let infos2 = vec![Some(info("HDMI-1", vec![mode(1280, 720, 60000, true)], None))];
    let ids2 = st.device_added(200, 207, false, None, &config2, &infos2, 1920);
    assert_eq!(ids2.len(), 1);
    assert_ne!(ids1[0], ids2[0]);
    assert_eq!(st.devices[1].surfaces[0].1.output.pos_x, 1920);
}

#[test]
fn removing_a_device_returns_only_its_outputs() {
    let mut st = KmsState::new(7);
    let config1 = vec![(10u32, 1u32)];
    let infos1 = vec![Some(info("DP-1", vec![mode(1920, 1080, 60000, true)], None))];
    let ids1 = st.device_added(100, 107, true, None, &config1, &infos1, 0);
    let config2 = vec![(20u32, 2u32)];
    let infos2 = vec![Some(info("HDMI-1", vec![mode(1280, 720, 60000, true)], None))];
    let ids2 = st.device_added(200, 207, false, None, &config2, &infos2, 1920);

    let removed = st.device_removed(100);
    assert_eq!(removed.len(), 1);
    assert_eq!(removed[0].id, ids1[0]);
    assert_eq!(st.devices.len(), 1);
    assert_eq!(st.devices[0].surfaces[0].1.output.id, ids2[0]);
}

#[test]
fn device_added_is_a_no_op_while_session_inactive() {
    let mut st = KmsState::new(7);
    st.set_session_active(false);
    let config = vec![(10u32, 1u32)];
    let infos = vec![Some(info("DP-1", vec![mode(1920, 1080, 60000, true)], None))];
    let ids = st.device_added(100, 107, true, None, &config, &infos, 0);
    assert!(ids.is_empty());
    assert!(st.devices.is_empty());
}

#[test]
fn setup_mode_prefers_crtc_current_mode() {
    let mut st = KmsState::new(7);
    let cur = mode(1280, 720, 50000, false);
    let config = vec![(10u32, 1u32)];
    let infos = vec![Some(info(
        "DP-1",
        vec![mode(1920, 1080, 60000, true), cur],
        Some(cur),
    ))];
    st.device_added(100, 107, true, None, &config, &infos, 0);
    assert_eq!(st.devices[0].surfaces[0].1.output.current_mode, Some(cur));
}

#[test]
fn setup_mode_falls_back_to_preferred_then_first() {
    let mut st = KmsState::new(7);
    let config = vec![(10u32, 1u32), (11u32, 2u32)];
    let infos = vec![
        Some(info(
            "DP-1",
            vec![mode(1280, 720, 60000, false), mode(1920, 1080, 60000, true)],
            None,
        )),
        Some(info("DP-2", vec![mode(1024, 768, 60000, false)], None)),
    ];
    st.device_added(100, 107, true, None, &config, &infos, 0);
    assert_eq!(
        st.devices[0].surfaces[0].1.output.current_mode,
        Some(mode(1920, 1080, 60000, true))
    );
    assert_eq!(
        st.devices[0].surfaces[1].1.output.current_mode,
        Some(mode(1024, 768, 60000, false))
    );
}

#[test]
fn enumeration_diff_reports_added_and_removed() {
    let mut st = KmsState::new(7);
    let config = vec![(10u32, 1u32), (11u32, 2u32)];
    let infos = vec![
        Some(info("DP-1", vec![mode(1920, 1080, 60000, true)], None)),
        Some(info("DP-2", vec![mode(1280, 720, 60000, true)], None)),
    ];
    st.device_added(100, 107, true, None, &config, &infos, 0);

    // connector 10 moves to CRTC 3, connector 11 disappears, 12 is new
    let fresh = vec![(10u32, 3u32), (12u32, 4u32)];
    let changes = st.get_device(100).unwrap().enumerate_surfaces(&fresh);
    assert_eq!(changes.added, vec![(3, 10), (4, 12)]);
    assert_eq!(changes.removed, vec![1, 2]);
}

#[test]
fn device_changed_tears_down_and_creates_surfaces() {
    let mut st = KmsState::new(7);
    let config = vec![(10u32, 1u32), (11u32, 2u32)];
    let infos = vec![
        Some(info("DP-1", vec![mode(1920, 1080, 60000, true)], None)),
        Some(info("DP-2", vec![mode(1280, 720, 60000, true)], None)),
    ];
    let ids = st.device_added(100, 107, true, None, &config, &infos, 0);

    // connector 11 is unplugged, connector 12 appears on CRTC 3
    let fresh = vec![(10u32, 1u32), (12u32, 3u32)];
    let fresh_infos = vec![None, Some(info("DP-3", vec![mode(1024, 768, 60000, true)], None))];
    let (removed, added) = st.device_changed(100, &fresh, &fresh_infos, 3200);
    assert_eq!(removed.len(), 1);
    assert_eq!(removed[0].id, ids[1]);
    assert_eq!(added.len(), 1);

    let dev = st.get_device(100).unwrap();
    assert_eq!(dev.surfaces.len(), 2);
    assert_eq!(dev.surfaces[0].0, 1);
    assert_eq!(dev.surfaces[0].1.output.id, ids[0]);
    // the new surface sits at the running width total: 3200 - 1280 = 1920
    assert_eq!(dev.surfaces[1].0, 3);
    assert_eq!(dev.surfaces[1].1.output.pos_x, 1920);
    assert_eq!(dev.surfaces[1].1.output.name, "DP-3");
}

#[test]
fn connectors_stay_unique_across_lifecycle() {
    let mut st = KmsState::new(7);
    let config = vec![(10u32, 1u32), (11u32, 2u32)];
    let infos = vec![
        Some(info("DP-1", vec![mode(1920, 1080, 60000, true)], None)),
        Some(info("DP-2", vec![mode(1280, 720, 60000, true)], None)),
    ];
    st.device_added(100, 107, true, None, &config, &infos, 0);
    // connector 10 moves from CRTC 1 to CRTC 2, connector 11 to CRTC 1
    let fresh = vec![(10u32, 2u32), (11u32, 1u32)];
    let fresh_infos = vec![
        Some(info("DP-1", vec![mode(1920, 1080, 60000, true)], None)),
        Some(info("DP-2", vec![mode(1280, 720, 60000, true)], None)),
    ];
    st.device_changed(100, &fresh, &fresh_infos, 3200);
    let dev = st.get_device(100).unwrap();
    assert_eq!(dev.surfaces.len(), 2);
    for a in 0..dev.surfaces.len() {
        for b in 0..dev.surfaces.len() {
            if a != b {
                assert_ne!(dev.surfaces[a].0, dev.surfaces[b].0);
                assert_ne!(dev.surfaces[a].1.connector, dev.surfaces[b].1.connector);
            }
        }
    }
}

#[test]
fn apply_config_creates_swapchain_and_schedules() {
    let (st, _id) = one_output_state();
    let s = &st.devices[0].surfaces[0].1;
    assert!(s.swapchain.is_some());
    assert!(s.pending);
    assert!(s.render_timer.is_some());
    let tok = s.render_timer.unwrap();
    assert!(st.loop_reg.registered.contains(&tok));
}

#[test]
fn apply_config_unknown_mode_fails_without_changes() {
    let mut st = KmsState::new(7);
    let config = vec![(10u32, 1u32)];
    let infos = vec![Some(info("DP-1", vec![mode(1920, 1080, 60000, true)], None))];
    let ids = st.device_added(100, 107, true, None, &config, &infos, 0);
    let id = ids[0];
    // ask for a resolution the connector does not advertise
    {
        let s = &mut st.devices[0].surfaces[0].1;
        s.output.config.mode_w = 2560;
        s.output.config.mode_h = 1440;
    }
    let before_regs = st.loop_reg.registered.len();
    let r = st.apply_config_for_output(id, false, Some(false), true);
    assert_eq!(r, Err(ConfigError::NoMatchingMode));
    let s = &st.devices[0].surfaces[0].1;
    assert!(s.swapchain.is_none());
    assert!(!s.pending);
    assert_eq!(st.loop_reg.registered.len(), before_regs);
}

#[test]
fn test_only_never_mutates_nor_recreates() {
    let (mut st, id) = one_output_state();
    let before_pending = st.devices[0].surfaces[0].1.pending;
    let before_vrr = st.devices[0].surfaces[0].1.vrr;
    let before_mode = st.devices[0].surfaces[0].1.swapchain.as_ref().unwrap().mode;
    let before_regs = st.loop_reg.registered.len();
    let r = st.apply_config_for_output(id, true, None, false).unwrap();
    assert!(!r.recreated);
    assert!(!r.detached);
    let s = &st.devices[0].surfaces[0].1;
    assert_eq!(s.pending, before_pending);
    assert_eq!(s.vrr, before_vrr);
    assert_eq!(s.swapchain.as_ref().unwrap().mode, before_mode);
    assert_eq!(st.loop_reg.registered.len(), before_regs);
}

#[test]
fn test_only_still_validates_the_mode() {
    let (mut st, id) = one_output_state();
    {
        let s = &mut st.devices[0].surfaces[0].1;
        s.output.config.mode_w = 2560;
        s.output.config.mode_h = 1440;
    }
    let r = st.apply_config_for_output(id, true, None, false);
    assert_eq!(r, Err(ConfigError::NoMatchingMode));
    // and the surface still has its swapchain
    assert!(st.devices[0].surfaces[0].1.swapchain.is_some());
}

#[test]
fn disabling_detaches_and_cancels() {
    let (mut st, id) = one_output_state();
    let tok = st.devices[0].surfaces[0].1.render_timer.unwrap();
    st.devices[0].surfaces[0].1.output.config.enabled = false;
    let r = st.apply_config_for_output(id, false, None, false).unwrap();
    assert!(!r.recreated);
    assert!(r.detached);
    let s = &st.devices[0].surfaces[0].1;
    assert!(s.swapchain.is_none());
    assert!(!s.pending);
    assert!(s.render_timer.is_none());
    assert!(!st.loop_reg.registered.contains(&tok));
}

#[test]
fn switching_mode_in_place_does_not_recreate() {
    let mut st = KmsState::new(7);
    let config = vec![(10u32, 1u32)];
    let infos = vec![Some(info(
        "DP-1",
        vec![mode(1920, 1080, 60000, true), mode(1280, 720, 60000, false)],
        None,
    ))];
    let ids = st.device_added(100, 107, true, None, &config, &infos, 0);
    let id = ids[0];
    st.apply_config_for_output(id, false, Some(false), true).unwrap();
    // reconfigure to the other resolution
    {
        let s = &mut st.devices[0].surfaces[0].1;
        s.output.config.mode_w = 1280;
        s.output.config.mode_h = 720;
    }
    let r = st.apply_config_for_output(id, false, None, false).unwrap();
    assert!(!r.recreated);
    assert!(!r.detached);
    let sc = st.devices[0].surfaces[0].1.swapchain.as_ref().unwrap();
    assert_eq!(sc.mode, mode(1280, 720, 60000, false));
}

#[test]
fn scheduling_twice_registers_one_timer() {
    let (mut st, id) = one_output_state();
    // drain the initial schedule: render and confirm
    assert_eq!(
        st.on_render_timer(100, 1, 5, false, RenderOutcome::Queued { buffer: 42 }),
        TimerAction::Stop
    );
    assert!(st.on_vblank(100, 1, Some(6), true));
    assert!(!st.devices[0].surfaces[0].1.pending);

    let before = st.loop_reg.registered.len();
    st.schedule_render(id);
    let tok = st.devices[0].surfaces[0].1.render_timer.unwrap();
    st.schedule_render(id);
    assert_eq!(st.loop_reg.registered.len(), before + 1);
    assert_eq!(st.devices[0].surfaces[0].1.render_timer, Some(tok));
    assert!(st.devices[0].surfaces[0].1.pending);
}

#[test]
fn render_success_waits_for_completion() {
    let (mut st, _id) = one_output_state();
    let act = st.on_render_timer(100, 1, 5, false, RenderOutcome::Queued { buffer: 42 });
    assert_eq!(act, TimerAction::Stop);
    let s = &st.devices[0].surfaces[0].1;
    // the buffer is in flight: still pending, but the timer is gone
    assert!(s.pending);
    assert!(s.render_timer.is_none());
    assert_eq!(s.last_render, Some((42, 5)));
    assert!(s.swapchain.as_ref().unwrap().queued);
}

#[test]
fn completion_clears_pending_and_records_time() {
    let (mut st, _id) = one_output_state();
    st.on_render_timer(100, 1, 5, false, RenderOutcome::Queued { buffer: 42 });
    let notified = st.on_vblank(100, 1, Some(9), true);
    assert!(notified);
    let s = &st.devices[0].surfaces[0].1;
    assert!(!s.pending);
    assert_eq!(s.last_submit, Some(9));
    assert!(!s.swapchain.as_ref().unwrap().queued);
}

#[test]
fn completion_error_leaves_state_unchanged() {
    let (mut st, _id) = one_output_state();
    st.on_render_timer(100, 1, 5, false, RenderOutcome::Queued { buffer: 42 });
    let notified = st.on_vblank(100, 1, Some(9), false);
    assert!(!notified);
    let s = &st.devices[0].surfaces[0].1;
    assert!(s.pending);
    assert!(s.swapchain.as_ref().unwrap().queued);
    assert_eq!(s.last_submit, None);
}

#[test]
fn render_failure_retries_and_resets_buffers() {
    let (mut st, _id) = one_output_state();
    let tok = st.devices[0].surfaces[0].1.render_timer.unwrap();
    let act = st.on_render_timer(100, 1, 5, false, RenderOutcome::RenderFailure);
    assert_eq!(act, TimerAction::Retry);
    let s = &st.devices[0].surfaces[0].1;
    assert!(s.pending);
    assert_eq!(s.render_timer, Some(tok));
    assert!(s.swapchain.as_ref().unwrap().dirty);
    assert_eq!(s.last_render, None);
}

#[test]
fn buffer_failure_retries_without_reset() {
    let (mut st, _id) = one_output_state();
    let act = st.on_render_timer(100, 1, 5, false, RenderOutcome::BufferFailure);
    assert_eq!(act, TimerAction::Retry);
    let s = &st.devices[0].surfaces[0].1;
    assert!(s.pending);
    assert!(!s.swapchain.as_ref().unwrap().dirty);
}

#[test]
fn teardown_cancels_scheduled_renders() {
    let (mut st, _id) = one_output_state();
    let tok = st.devices[0].surfaces[0].1.render_timer.unwrap();
    assert!(st.loop_reg.registered.contains(&tok));
    st.device_removed(100);
    assert!(!st.loop_reg.registered.contains(&tok));
    assert!(st.devices.is_empty());
}

#[test]
fn device_removed_works_while_session_inactive() {
    let (mut st, id) = one_output_state();
    st.set_session_active(false);
    let removed = st.device_removed(100);
    assert_eq!(removed.len(), 1);
    assert_eq!(removed[0].id, id);
    assert!(st.devices.is_empty());
}

#[test]
fn session_reset_clears_every_pending_flag() {
    let (mut st, _id) = one_output_state();
    assert!(st.devices[0].surfaces[0].1.pending);
    let tok = st.devices[0].surfaces[0].1.render_timer.unwrap();
    st.reset_pending();
    let s = &st.devices[0].surfaces[0].1;
    assert!(!s.pending);
    assert!(s.render_timer.is_none());
    assert!(!st.loop_reg.registered.contains(&tok));
    // the swapchain survives: the next render is simply scheduled afresh
    assert!(s.swapchain.is_some());
}

#[test]
fn capture_returns_last_render() {
    let (mut st, id) = one_output_state();
    assert_eq!(st.capture_output(id), None);
    st.on_render_timer(100, 1, 5, false, RenderOutcome::Queued { buffer: 42 });
    assert_eq!(st.capture_output(id), Some((107, 42, 5)));
}

#[test]
fn target_node_is_the_devices_render_node() {
    let (st, id) = one_output_state();
    assert_eq!(st.target_node_for_output(id), Some(107));
    assert_eq!(st.target_node_for_output(id + 1000), None);
}

#[test]
fn dmabuf_global_maps_to_its_device() {
    let (st, _id) = one_output_state();
    assert_eq!(st.dmabuf_imported(900), Some(107));
    assert_eq!(st.dmabuf_imported(999), None);
}
