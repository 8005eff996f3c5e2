use warden_sim::rga::{ImStatus, Rect, RgaSim, Surface};

fn surf(w: i32, h: i32) -> Surface {
    Surface {
        width: w,
        height: h,
        format: 0,
    }
}
fn rect(w: i32, h: i32) -> Rect {
    Rect { x: 0, y: 0, w, h }
}

#[test]
fn records_a_successful_blit() {
    let mut r = RgaSim::new();
    let st = r.improcess(
        surf(720, 720),
        surf(360, 360),
        rect(720, 720),
        rect(360, 360),
    );
    assert_eq!(st, ImStatus::Success);
    assert_eq!(r.count(), 1);
    let b = r.last().unwrap();
    assert_eq!(b.src, surf(720, 720));
    assert_eq!(b.drect, rect(360, 360));
}

#[test]
fn failed_status_drives_fallback() {
    let mut r = RgaSim::new();
    r.set_status(ImStatus::Failed);
    assert_eq!(
        r.improcess(surf(10, 10), surf(10, 10), rect(10, 10), rect(10, 10)),
        ImStatus::Failed
    );
    // the op is still recorded: the driver dispatched it, then fell back.
    assert_eq!(r.count(), 1);
}

#[test]
fn logs_multiple_in_order() {
    let mut r = RgaSim::new();
    r.improcess(surf(1, 1), surf(1, 1), rect(1, 1), rect(1, 1));
    r.improcess(surf(2, 2), surf(2, 2), rect(2, 2), rect(2, 2));
    assert_eq!(r.count(), 2);
    assert_eq!(r.blits()[0].src, surf(1, 1));
    assert_eq!(r.blits()[1].src, surf(2, 2));
}

#[test]
fn clear_empties_the_log() {
    let mut r = RgaSim::new();
    r.improcess(surf(1, 1), surf(1, 1), rect(1, 1), rect(1, 1));
    r.clear();
    assert_eq!(r.count(), 0);
    assert!(r.last().is_none());
}

#[test]
fn default_is_empty_and_succeeds() {
    let r = RgaSim::default();
    assert_eq!(r.count(), 0);
    assert!(r.last().is_none());
}

#[test]
fn clear_keeps_the_programmed_status() {
    let mut r = RgaSim::default();
    r.set_status(ImStatus::Failed);
    r.clear();
    assert_eq!(
        r.improcess(surf(3, 4), surf(5, 6), rect(1, 2), rect(3, 4)),
        ImStatus::Failed
    );
    let b = r.last().unwrap();
    assert_eq!(b.dst, surf(5, 6));
    assert_eq!(b.srect, rect(1, 2));
}
