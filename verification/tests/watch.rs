use speed::net::{Colo, Meta};
use speed::reading::Reading;
use speed::servers::{Ranked, Server};
use speed::test::{Interval, SECOND};
use speed::watch::{
    axis_unit_is_gbps, axis_value, chart_width, charted, closing, draw, finite, got_through,
    headline, plain_line, sample_report, stream_urls, summary, summary_report, want, Figures,
    Frame, Mode, Opts, Tally, Watch,
};

fn reading(v: f64) -> Reading {
    Reading::from_bits(v.to_bits())
}

fn some(s: &str) -> Option<String> {
    Some(s.to_string())
}

fn ranked(city: &'static str, url: &'static str) -> Ranked {
    Ranked { server: Server { city, provider: "Linode", url }, rtt_ms: None }
}

fn tally(rates: &[f64]) -> Tally {
    let mut t = Tally::new();
    for &v in rates {
        t.record(reading(v));
    }
    t
}

fn figures(avg: &str, min: &str, max: &str) -> Figures {
    Figures { avg: avg.to_string(), min: min.to_string(), max: max.to_string() }
}

#[test]
fn as_many_servers_are_wanted_as_the_cap_asks_for() {
    for streams in 1..=64usize {
        assert_eq!(want(streams), streams.min(5).max(streams.div_ceil(2)));
    }
    assert_eq!((want(1), want(4), want(8), want(11), want(32)), (1, 4, 5, 6, 16));
}

#[test]
fn streams_go_round_the_servers() {
    let servers = vec![ranked("a", "https://a/"), ranked("b", "https://b/"), ranked("c", "https://c/")];
    assert_eq!(
        stream_urls(5, &servers),
        vec!["https://a/", "https://b/", "https://c/", "https://a/", "https://b/"]
    );
    assert!(stream_urls(0, &servers).is_empty());
}

#[test]
fn no_server_gets_more_streams_than_its_cap() {
    let urls = ["https://0/", "https://1/", "https://2/", "https://3/", "https://4/", "https://5/", "https://6/"];
    for streams in 1..=14usize {
        let servers: Vec<Ranked> = urls[..want(streams)].iter().map(|u| ranked("x", u)).collect();
        let used = stream_urls(streams, &servers);
        for u in &urls[..want(streams)] {
            assert!((1..=2).contains(&used.iter().filter(|v| v == u).count()));
        }
    }
}

#[test]
fn only_terminals_get_a_dashboard() {
    let opts = |json: bool| Opts { streams: 4, duration: None, json };
    assert_eq!(Mode::of(&opts(false), true), Mode::Live);
    assert_eq!(Mode::of(&opts(false), false), Mode::Plain);
    assert_eq!(Mode::of(&opts(true), true), Mode::Json);
    assert_eq!(Mode::of(&opts(true), false), Mode::Json);
}

#[test]
fn headlines_tell_connection_and_mirrors() {
    let servers = vec![ranked("London", "u"), ranked("Paris", "v"), ranked("London", "w")];
    let m = Meta {
        client_ip: None,
        as_organization: some("Vorboss Limited"),
        city: some("City of London"),
        colo: Some(Colo { iata: some("LHR") }),
    };
    assert_eq!(
        headline(false, &m, 4, &servers),
        "  speed watch  Vorboss Limited · City of London (LHR) · 4 streams via London · Paris\n"
    );
    assert_eq!(
        headline(true, &Meta::default(), 32, &servers),
        "  \x1b[1mspeed watch\x1b[0m  \x1b[2m32 streams via London · Paris\x1b[0m\n"
    );
}

#[test]
fn warm_up_seconds_do_not_count() {
    let t = tally(&[1.0, 900.0]);
    assert!(!t.is_settled());
    assert_eq!(t.min, reading(f64::INFINITY));
    assert_eq!(t.max, reading(0.0));
    assert_eq!(t.averaged(), vec![reading(1.0), reading(900.0)]);
    let t = tally(&[1.0, 900.0, 50.0, 70.0, 60.0]);
    assert!(t.is_settled());
    assert_eq!((t.min, t.max), (reading(50.0), reading(70.0)));
    assert_eq!(t.averaged(), vec![reading(50.0), reading(70.0), reading(60.0)]);
    assert!(Tally::new().averaged().is_empty());
}

#[test]
fn intervals_add_up() {
    let mut w = Watch::new(Some(3));
    let samples = [(1_001_000_000u64, 500u64), (2_000_500_000, 500), (3_000_000_000, 1_700)];
    let mut moved = 0;
    for (now, counted) in samples {
        moved += w.tick(now, counted).bytes;
    }
    assert_eq!(moved, 1_700);
    assert_eq!(w.tick(4_000_000_000, 2_000), Interval { bytes: 300, nanos: SECOND });
}

#[test]
fn watches_end_when_their_time_is_up() {
    let mut w = Watch::new(Some(3));
    w.record(reading(10.0));
    assert_eq!(w.tally.history, vec![reading(10.0)]);
    assert!(!w.is_over(3 * SECOND - 1));
    assert!(w.is_over(3 * SECOND));
    assert!(Watch::new(Some(0)).is_over(0));
    assert!(!Watch::new(Some(u64::MAX)).is_over(u64::MAX));
    assert!(!Watch::new(None).is_over(u64::MAX));
}

#[test]
fn samples_are_reported() {
    let r = sample_report(&tally(&[5.0, 0.05]), reading(0.05), reading(2.5), 700, some("timed out"));
    assert_eq!((r.t, r.mbps, r.bytes), (2, reading(0.05), 700));
    assert!(r.avg.is_none() && r.min.is_none() && r.max.is_none());
    assert_eq!(r.error, some("timed out"));
    let r = sample_report(&tally(&[5.0, 6.0, 7.0]), reading(7.0), reading(7.0), 800, some("timed out"));
    assert_eq!((r.avg, r.min, r.max), (Some(reading(7.0)), Some(reading(7.0)), Some(reading(7.0))));
    assert_eq!(r.error, None);
    let edge = sample_report(&tally(&[0.1]), reading(0.1), reading(0.1), 0, some("timed out"));
    assert_eq!(edge.error, None);
}

#[test]
fn watches_are_reported() {
    let none = summary_report(&Tally::new(), reading(0.0), 0, None);
    assert!(none.avg.is_none() && none.min.is_none() && none.max.is_none());
    assert_eq!(none.error, some("no data transferred"));
    let short = summary_report(&tally(&[4.0]), reading(4.0), 1_000_000, some("HTTP 503"));
    assert_eq!((short.avg, short.min, short.max), (Some(reading(4.0)), None, None));
    assert_eq!((short.bytes, short.error), (1_000_000, None));
    let settled = summary_report(&tally(&[4.0, 5.0, 6.0]), reading(6.0), 9, some("HTTP 503"));
    assert_eq!((settled.min, settled.max), (Some(reading(6.0)), Some(reading(6.0))));
    assert_eq!(settled.error, some("HTTP 503"));
}

#[test]
fn a_megabyte_has_to_get_through() {
    assert!(!got_through(999_999));
    assert!(got_through(1_000_000));
}

#[test]
fn plain_lines() {
    let f = figures("55.0", "50.0", "60.0");
    assert_eq!(plain_line(&tally(&[5.0]), "5.0", &f), "    1s      5.0 Mbps");
    assert_eq!(
        plain_line(&tally(&[5.0, 6.0, 50.0, 60.0]), "60.0", &f),
        "    4s     60.0 Mbps  avg 55.0  min 50.0  max 60.0"
    );
}

#[test]
fn what_is_not_finite_counts_as_none() {
    assert_eq!(finite(reading(7.5)), reading(7.5));
    assert_eq!(finite(reading(-7.5)), reading(-7.5));
    assert_eq!(finite(reading(f64::MAX)), reading(f64::MAX));
    for v in [f64::INFINITY, f64::NEG_INFINITY, f64::NAN, -f64::NAN] {
        assert_eq!(finite(reading(v)), reading(0.0));
    }
}

#[test]
fn the_display_is_closed() {
    assert_eq!(closing(Mode::Plain, 11), "");
    assert_eq!(closing(Mode::Json, 11), "");
    assert_eq!(closing(Mode::Live, 0), "\x1b[?25h");
    assert_eq!(closing(Mode::Live, 11), "\x1b[?25h\x1b[2A\x1b[J");
}

#[test]
fn summaries() {
    let f = figures("55.0 Mbps", "50.0 Mbps", "60.0 Mbps");
    assert_eq!(summary(false, &Tally::new(), 3, &f, 0, some("timed out")), "\n");
    let t = tally(&[5.0, 6.0, 50.0, 60.0]);
    assert_eq!(
        summary(false, &t, 67, &f, 139_000_000, some("timed out")),
        "\n  1m07s  avg 55.0 Mbps   min 50.0 Mbps · max 60.0 Mbps   139 MB downloaded\n"
    );
    assert_eq!(
        summary(false, &t, 4, &f, 10, some("timed out")),
        "\n  4s  avg 55.0 Mbps   min 50.0 Mbps · max 60.0 Mbps   0 MB downloaded\n  failed · timed out\n"
    );
    assert_eq!(
        summary(true, &t, 4, &f, 10, None),
        "\n  \x1b[1m4s\x1b[0m  avg \x1b[1;36m55.0 Mbps\x1b[0m   \x1b[2mmin 50.0 Mbps · max 60.0 Mbps\x1b[0m   \x1b[2m0 MB downloaded\x1b[0m\n  \x1b[31mfailed · no data transferred\x1b[0m\n"
    );
}

#[test]
fn axis_values_get_their_unit() {
    assert!(axis_unit_is_gbps(reading(1000.0)));
    assert!(!axis_unit_is_gbps(reading(800.0)));
    assert_eq!(axis_value(reading(1500.0), "1.5"), "1.5G");
    assert_eq!(axis_value(reading(250.0), "250"), "250");
}

#[test]
fn charts_leave_room_for_their_axis() {
    assert_eq!(chart_width(80), 70);
    assert_eq!(chart_width(30), 20);
    assert_eq!(chart_width(0), 20);
    let t = tally(&(0..25).map(|i| 100.0 - i as f64).collect::<Vec<f64>>());
    let (shown, peak) = charted(&t, 0);
    assert_eq!(shown, t.history[5..].to_vec());
    assert_eq!(peak, reading(95.0));
}

fn frame(mbps: f64, error: Option<String>) -> Frame {
    Frame {
        mbps: reading(mbps),
        rate: "60.0 Mbps".to_string(),
        figures: figures("55.0 Mbps", "50.0 Mbps", "60.0 Mbps"),
        secs: 4,
        bytes: 139_000_000,
        error,
        axis: "80".to_string(),
        eighths: vec![0, 4, 48],
    }
}

#[test]
fn dashboards_are_drawn() {
    let t = tally(&[5.0, 6.0, 60.0]);
    let (text, lines) = draw(false, &t, &frame(60.0, some("timed out")), 60, 0);
    assert_eq!(lines, 11);
    let clear = "\r\x1b[2K";
    let pad = " ".repeat(47);
    let expected = [
        format!("{clear}  60.0 Mbps now{}4s · 139 MB\n", " ".repeat(31)),
        format!("{clear}\n"),
        format!("{clear}     80┤ {pad}  █\n"),
        format!("{clear}       │ {pad}  █\n"),
        format!("{clear}       │ {pad}  █\n"),
        format!("{clear}       │ {pad}  █\n"),
        format!("{clear}       │ {pad}  █\n"),
        format!("{clear}      0┤ {pad} ▄█\n"),
        format!("{clear}        Mbps{}\n", " ".repeat(42)),
        format!("{clear}\n"),
        format!("{clear}  avg 55.0 Mbps   min 50.0 Mbps   max 60.0 Mbps   Ctrl+C to stop\n"),
        "\x1b[J".to_string(),
    ];
    assert_eq!(text, expected.concat());
}

#[test]
fn dashboards_are_drawn_over_the_one_before() {
    let (text, lines) = draw(false, &tally(&[0.0]), &frame(0.0, None), 0, 11);
    assert!(text.starts_with("\x1b[11A\r\x1b[2K  60.0 Mbps now"));
    assert!(text.ends_with(&format!("  warming up…{}Ctrl+C to stop\n\x1b[J", " ".repeat(3))));
    assert_eq!(lines, 11);
}

#[test]
fn errors_show_while_nothing_is_flowing() {
    let stalled = draw(true, &tally(&[0.0]), &frame(0.05, some("timed out")), 80, 0).0;
    assert!(stalled.contains("\x1b[2mwarming up…\x1b[0m"));
    assert!(stalled.contains("\x1b[33m⚠ timed out\x1b[0m"));
    assert!(!stalled.contains("Ctrl+C"));
    let flowing = draw(true, &tally(&[0.0]), &frame(0.1, some("timed out")), 80, 0).0;
    assert!(flowing.contains("\x1b[2mCtrl+C to stop\x1b[0m"));
    assert!(!flowing.contains("timed out"));
}
