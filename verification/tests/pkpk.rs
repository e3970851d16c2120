use qdc_core::decimation::min_max_decimate;
use qdc_core::processing::config::parse_config;
use qdc_core::processing::{
    processing_kernel, DataBlock, FilterKind, FilterRoute, Processor, ProcessingConfig, Streams,
};
use qdc_core::rolling::{rolling_pkpk, Span};

fn bits(v: &[f64]) -> Vec<u64> {
    v.iter().map(|x| x.to_bits()).collect()
}

fn span(high: f64, low: f64) -> Span {
    Span { high: high.to_bits(), low: low.to_bits() }
}

fn config() -> ProcessingConfig {
    parse_config(None, None, None, None)
}

#[test]
fn filters_by_name() {
    assert_eq!(FilterKind::from_str("Butterworth"), FilterKind::Butterworth);
    assert_eq!(FilterKind::from_str("BUTTER"), FilterKind::Butterworth);
    assert_eq!(FilterKind::from_str("bessel"), FilterKind::Bessel);
    assert_eq!(FilterKind::from_str("rc"), FilterKind::RcCascade);
    assert_eq!(FilterKind::from_str("RC_Cascade"), FilterKind::RcCascade);
    assert_eq!(FilterKind::from_str("none"), FilterKind::NoFilter);
    assert_eq!(FilterKind::from_str(""), FilterKind::NoFilter);
    assert_eq!(FilterKind::from_str("butterworth "), FilterKind::NoFilter);
}

#[test]
fn settings_and_their_defaults() {
    let c = config();
    assert_eq!(f64::from_bits(c.lp_freq), 5.0);
    assert_eq!(f64::from_bits(c.pkpk_time), 120.0);
    assert_eq!(f64::from_bits(c.pkpk_fs), 1.0);
    assert_eq!(c.filter_kind, FilterKind::Butterworth);
    let c = parse_config(Some(1), Some(2), Some(3), Some("Bessel"));
    assert_eq!((c.lp_freq, c.pkpk_time, c.pkpk_fs), (1, 2, 3));
    assert_eq!(c.filter_kind, FilterKind::Bessel);
}

#[test]
fn filters_need_a_cut_off_below_half_the_rate() {
    let route = |lp: f64, half: f64, kind: &str| {
        parse_config(Some(lp.to_bits()), None, None, Some(kind)).filter_route(half.to_bits())
    };
    assert_eq!(route(5.0, 50.0, "butter"), FilterRoute::Butterworth);
    assert_eq!(route(5.0, 50.0, "rc"), FilterRoute::RcCascade);
    assert_eq!(route(5.0, 50.0, "bessel"), FilterRoute::Pass);
    assert_eq!(route(5.0, 50.0, "none"), FilterRoute::Pass);
    assert_eq!(route(50.0, 50.0, "butter"), FilterRoute::Pass);
    assert_eq!(route(0.0, 50.0, "butter"), FilterRoute::Pass);
    assert_eq!(route(-0.0, 50.0, "butter"), FilterRoute::Pass);
    assert_eq!(route(-1.0, 50.0, "butter"), FilterRoute::Pass);
    assert_eq!(route(f64::NAN, 50.0, "butter"), FilterRoute::Pass);
    assert_eq!(route(5.0, f64::NAN, "butter"), FilterRoute::Pass);
    assert_eq!(route(5.0, f64::INFINITY, "butter"), FilterRoute::Butterworth);
}

#[test]
fn spans_of_sliding_windows() {
    let data = bits(&[3.0, 1.0, 4.0, 1.0, -5.0, 9.0]);
    assert_eq!(
        rolling_pkpk(&data, 3, 1),
        vec![span(4.0, 1.0), span(4.0, 1.0), span(4.0, -5.0), span(9.0, -5.0)]
    );
    assert_eq!(rolling_pkpk(&data, 3, 2), vec![span(4.0, 1.0), span(4.0, -5.0)]);
    assert_eq!(rolling_pkpk(&data, 3, usize::MAX), vec![span(4.0, 1.0)]);
    assert_eq!(rolling_pkpk(&data, 6, 1), vec![span(9.0, -5.0)]);
    assert_eq!(rolling_pkpk(&data, 1, 5), vec![span(3.0, 3.0), span(9.0, 9.0)]);
    assert_eq!(rolling_pkpk(&data, 7, 1), vec![]);
    assert_eq!(rolling_pkpk(&data, 0, 0), vec![]);
}

#[test]
fn spans_keep_the_last_of_equal_samples() {
    // The two zeros are equal.
    let r = rolling_pkpk(&bits(&[0.0, -0.0]), 2, 1);
    assert_eq!(r, vec![span(-0.0, -0.0)]);
}

#[test]
fn windows_count_up_to_a_nan() {
    let data = bits(&[1.0, 2.0, f64::NAN, 9.0, -9.0]);
    let r = rolling_pkpk(&data, 3, 1);
    assert_eq!(r[0], span(2.0, 1.0));
    assert_eq!(r[1], span(2.0, 2.0));
    assert!(f64::from_bits(r[2].high).is_nan() && f64::from_bits(r[2].low).is_nan());
    assert_eq!(r.len(), 3);
}

fn streams(v: &[f64]) -> Streams {
    Streams { x: bits(v), y: bits(v), z: bits(v), xy: bits(v), xz: bits(v), yz: bits(v) }
}

#[test]
fn results_with_the_times_of_the_window_ends() {
    let r = processing_kernel(&[10, 20, 30, 40, 50], &streams(&[1.0, 2.0, 3.0, 4.0, 5.0]), 0, 2, 2);
    assert_eq!(r.times_ns, vec![20, 40]);
    assert_eq!(r.x_pkpk, vec![span(2.0, 1.0), span(4.0, 3.0)]);
    assert_eq!(r.yz_pkpk, r.x_pkpk);
    // Fewer times than samples.
    let r = processing_kernel(&[10, 20, 30], &streams(&[1.0, 2.0, 3.0, 4.0, 5.0]), 0, 2, 2);
    assert_eq!(r.times_ns, vec![20]);
    let r = processing_kernel(&[], &streams(&[1.0]), 0, 1, usize::MAX);
    assert_eq!(r.times_ns, vec![]);
    assert_eq!(r.x_pkpk.len(), 1);
    let r = processing_kernel(&[10, 20], &streams(&[1.0, 2.0]), 0, 0, 1);
    assert_eq!(r.times_ns, vec![]);
    assert_eq!(r.x_pkpk, vec![]);
    // The first window starts further on.
    let r = processing_kernel(&[10, 20, 30, 40, 50], &streams(&[1.0, 2.0, 3.0, 4.0, 5.0]), 1, 2, 2);
    assert_eq!(r.times_ns, vec![30, 50]);
    assert_eq!(r.x_pkpk, vec![span(3.0, 2.0), span(5.0, 4.0)]);
    let r = processing_kernel(&[10, 20], &streams(&[1.0, 2.0]), 7, 1, 1);
    assert_eq!(r.times_ns, vec![]);
    assert_eq!(r.x_pkpk, vec![]);
}

fn block(times: std::ops::Range<i64>) -> DataBlock {
    let v: Vec<f64> = times.clone().map(|t| (t * 7 % 5) as f64).collect();
    DataBlock { times_ns: times.collect(), x: bits(&v), y: bits(&v), z: bits(&v), dt: 1.0f64.to_bits() }
}

fn run(blocks: Vec<DataBlock>, n: usize, step: usize) -> (Vec<i64>, Vec<Span>, Vec<Span>) {
    let mut p = Processor::new(config());
    for b in blocks {
        assert!(p.accepts(&b, n));
        if let Some(out) = p.feed(b, n, step) {
            let all = out.block;
            assert_eq!(f64::from_bits(all.dt), 1.0);
            let s = Streams {
                x: all.x.clone(),
                y: all.y.clone(),
                z: all.z.clone(),
                xy: all.x.clone(),
                xz: all.x.clone(),
                yz: all.y.clone(),
            };
            p.absorb(&all.times_ns, &s, out.skip, n, step);
        }
    }
    let r = p.finish();
    (r.times_ns, r.x_pkpk, r.yz_pkpk)
}

#[test]
fn two_blocks_are_as_one() {
    for step in 1..9 {
        for n in 0..7 {
            for cut in 0..15 {
                assert_eq!(
                    run(vec![block(0..cut), block(cut..15)], n, step),
                    run(vec![block(0..15)], n, step)
                );
            }
        }
    }
}

#[test]
fn many_blocks_are_as_one() {
    for step in [1, 2, 3, 5, 8] {
        let parts = vec![block(0..1), block(1..6), block(6..6), block(6..7), block(7..15), block(15..20)];
        assert_eq!(run(parts, 3, step), run(vec![block(0..20)], 3, step));
    }
}

#[test]
fn steps_go_on_across_blocks() {
    let part = |times: &[i64], v: &[f64]| DataBlock {
        times_ns: times.to_vec(),
        x: bits(v),
        y: bits(v),
        z: bits(v),
        dt: 1.0f64.to_bits(),
    };
    let second = 1_000_000_000;
    let (times, x, _) = run(
        vec![
            part(&[0, second, 2 * second, 3 * second], &[0.0, 1.0, 5.0, 7.0]),
            part(&[4 * second], &[9.0]),
        ],
        2,
        2,
    );
    assert_eq!(times, vec![second, 3 * second]);
    assert_eq!(x, vec![span(1.0, 0.0), span(7.0, 5.0)]);
}

#[test]
fn every_output_has_its_time() {
    let (times, x, yz) = run(vec![block(0..20)], 5, 3);
    assert_eq!(times, vec![4, 7, 10, 13, 16, 19]);
    assert_eq!(x.len(), times.len());
    assert_eq!(yz.len(), times.len());
}

#[test]
fn short_blocks_accumulate() {
    let mut p = Processor::new(config());
    assert!(p.feed(block(0..2), 4, 3).is_none());
    assert!(p.feed(block(2..3), 4, 3).is_none());
    let out = p.feed(block(3..5), 4, 3).unwrap();
    assert_eq!(out.block.times_ns, vec![0, 1, 2, 3, 4]);
    assert_eq!(out.skip, 0);
    // Three samples are carried on; the next window starts with the second.
    let more = p.feed(block(5..6), 4, 3).unwrap();
    assert_eq!(more.block.times_ns, vec![2, 3, 4, 5]);
    assert_eq!(more.skip, 1);
    let more = p.feed(block(6..7), 4, 3).unwrap();
    assert_eq!(more.block.times_ns, vec![3, 4, 5, 6]);
    assert_eq!(more.skip, 0);
    assert_eq!(p.config(), config());
    assert_eq!(p.finish().times_ns, vec![]);
}

#[test]
fn channels_must_reach_what_is_carried_on() {
    let p = Processor::new(config());
    let mut b = block(0..5);
    b.y.truncate(2);
    assert!(p.accepts(&b, 4));
    b.y.truncate(1);
    assert!(!p.accepts(&b, 4));
    assert!(p.accepts(&b, 6));
}

#[test]
fn least_and_greatest_of_each_bucket() {
    let data = bits(&[1.0, 5.0, 3.0, -2.0, 7.0, 7.0, 0.0]);
    let (lows, highs) = min_max_decimate(&data, 3);
    assert_eq!(lows, bits(&[1.0, -2.0, 0.0]));
    assert_eq!(highs, bits(&[5.0, 3.0, 7.0]));
    // Two samples for each bucket are few enough.
    assert_eq!(min_max_decimate(&data, 4), (data.clone(), data.clone()));
    assert_eq!(min_max_decimate(&data[..6], 3), (data[..6].to_vec(), data[..6].to_vec()));
}

#[test]
fn short_series_stay_as_they_are() {
    let data = bits(&[1.0, 2.0, 3.0]);
    for buckets in [2, 3, 9, usize::MAX, 0] {
        assert_eq!(min_max_decimate(&data, buckets), (data.clone(), data.clone()));
    }
    let data = bits(&[2.0, 1.0, f64::NAN]);
    assert_eq!(min_max_decimate(&data, 2), (data.clone(), data.clone()));
    assert_eq!(min_max_decimate(&[], 3), (vec![], vec![]));
}

#[test]
fn nans_are_left_out_of_buckets() {
    let data = bits(&[f64::NAN, 2.0, f64::NAN, f64::NAN, f64::NAN]);
    let (lows, highs) = min_max_decimate(&data, 2);
    assert_eq!(lows, bits(&[2.0, f64::INFINITY]));
    assert_eq!(highs, bits(&[2.0, f64::NEG_INFINITY]));
}

#[test]
fn every_peak_is_kept() {
    let data: Vec<f64> = (0..1000).map(|i| ((i * 7919) % 997) as f64).collect();
    let (lows, highs) = min_max_decimate(&bits(&data), 37);
    assert_eq!(lows.len(), 37);
    let low = lows.iter().map(|b| f64::from_bits(*b)).fold(f64::INFINITY, f64::min);
    let high = highs.iter().map(|b| f64::from_bits(*b)).fold(f64::NEG_INFINITY, f64::max);
    assert_eq!(low, data.iter().copied().fold(f64::INFINITY, f64::min));
    assert_eq!(high, data.iter().copied().fold(f64::NEG_INFINITY, f64::max));
}
