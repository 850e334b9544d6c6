use music_sandbox::unit_draw::{exceeds_unit_draw, TICK_SHIFT, UNIT_ONE_BITS};

const SECOND: u64 = 1 << TICK_SHIFT;

#[test]
fn quarter_second_exceeds_every_draw() {
    let largest_below_one = UNIT_ONE_BITS - 1;
    assert!(exceeds_unit_draw(SECOND / 4, largest_below_one));
    assert!(exceeds_unit_draw(SECOND / 4, 0.5f64.to_bits()));
    assert!(exceeds_unit_draw(SECOND / 4, 0));
}

#[test]
fn sixteenth_second_against_quarter() {
    // four times 1/16 s is exactly 0.25
    let d = SECOND / 16;
    assert!(exceeds_unit_draw(d, 0.2f64.to_bits()));
    assert!(exceeds_unit_draw(d, 0.249f64.to_bits()));
    assert!(!exceeds_unit_draw(d, 0.25f64.to_bits()));
    assert!(!exceeds_unit_draw(d, 0.3f64.to_bits()));
}

#[test]
fn empty_span_never_exceeds() {
    assert!(!exceeds_unit_draw(0, 0));
    assert!(!exceeds_unit_draw(0, 0.1f64.to_bits()));
}

#[test]
fn one_tick_against_small_draws() {
    // four ticks of 2^-54 s is 2^-52
    let edge = f64::EPSILON.to_bits();
    assert!(!exceeds_unit_draw(1, edge));
    assert!(exceeds_unit_draw(1, edge - 1));
    assert!(exceeds_unit_draw(1, 1)); // smallest subnormal
}

#[test]
fn matches_float_comparison() {
    let draws = [0.0f64, 1e-300, 0.001, 0.0625, 0.1, 0.37, 0.5, 0.75, 0.999999];
    let spans = [0u64, 1, 3, 1000, SECOND / 64, SECOND / 16, SECOND / 5, SECOND / 4, 7 * SECOND];
    for &r in draws.iter() {
        for &d in spans.iter() {
            let seconds = d as f64 / SECOND as f64;
            assert_eq!(exceeds_unit_draw(d, r.to_bits()), seconds * 4.0 > r, "d={} r={}", d, r);
        }
    }
}

#[test]
fn longer_spans_exceed_what_shorter_ones_do() {
    let draw = 0.3f64.to_bits();
    let mut exceeded = false;
    for d in (0..SECOND / 4).step_by((SECOND / 4000 + 7) as usize) {
        let now = exceeds_unit_draw(d, draw);
        assert!(!exceeded || now);
        exceeded = now;
    }
    assert!(exceeded);
}
