use price_gauge::{render, Price, RenderOutcome};

fn whole(n: i64) -> Price {
    Price::from_integer(n)
}

#[test]
fn equal_high_and_low_is_a_degenerate_range() {
    let r = render(whole(5), whole(5), whole(5), "BTC");
    assert!(matches!(r, RenderOutcome::DegenerateRange));
    // Sentinels with a zero span degenerate the same way.
    let s = Price::positive_sentinel();
    let r = render(s, s, whole(0), "BTC");
    assert!(matches!(r, RenderOutcome::DegenerateRange));
}

#[test]
fn midpoint_renders_half_a_bar() {
    match render(whole(100), whole(0), whole(50), "BTC") {
        RenderOutcome::Rendered { percentage, filled, empty, line } => {
            assert_eq!(percentage, "50.00%");
            assert_eq!(filled, 25);
            assert_eq!(empty, 25);
            let expected = format!(
                "     50.00%|{}{}|BTC",
                "\u{2588}".repeat(25),
                "\u{2591}".repeat(25)
            );
            assert_eq!(line, expected);
        }
        _ => panic!("expected a rendered bar"),
    }
}

#[test]
fn top_of_range_renders_a_full_bar() {
    match render(whole(15000), whole(10000), whole(15000), "BTC") {
        RenderOutcome::Rendered { percentage, filled, empty, line } => {
            assert_eq!(percentage, "100.00%");
            assert_eq!(filled, 50);
            assert_eq!(empty, 0);
            let expected = format!("    100.00%|{}|BTC", "\u{2588}".repeat(50));
            assert_eq!(line, expected);
        }
        _ => panic!("expected a rendered bar"),
    }
}

#[test]
fn current_above_the_range_is_out_of_bounds() {
    let r = render(whole(100), whole(0), whole(200), "BTC");
    assert!(matches!(r, RenderOutcome::OutOfBounds));
}

#[test]
fn current_below_the_range_is_out_of_bounds() {
    let r = render(whole(100), whole(0), whole(-50), "BTC");
    assert!(matches!(r, RenderOutcome::OutOfBounds));
}

#[test]
fn rounding_is_half_away_from_zero() {
    // (1 - 0) / (800 - 0) is exactly 0.125%: the rounded text carries
    // 0.13, and the bar length comes from the rounded value.
    match render(whole(800), whole(0), whole(1), "X") {
        RenderOutcome::Rendered { percentage, filled, empty, .. } => {
            assert_eq!(percentage, "0.13%");
            assert_eq!(filled, 0);
            assert_eq!(empty, 50);
        }
        _ => panic!("expected a rendered bar"),
    }
}

#[test]
fn bound_check_runs_on_the_rounded_value() {
    // current sits a hair above high: the raw ratio exceeds 100% but
    // rounds back to 100.00, so a (full) bar is still drawn.
    let high = whole(10000);
    let low = whole(0);
    let current = Price::parse("10000.2").unwrap();
    match render(high, low, current, "X") {
        RenderOutcome::Rendered { percentage, filled, .. } => {
            assert_eq!(percentage, "100.00%");
            assert_eq!(filled, 50);
        }
        _ => panic!("expected a rendered bar"),
    }
    // A hair further and the rounded value crosses 100.01: no bar.
    let current = Price::parse("10000.5").unwrap();
    assert!(matches!(
        render(high, low, current, "X"),
        RenderOutcome::OutOfBounds
    ));
}

#[test]
fn inverted_range_still_renders_by_the_same_formula() {
    // A negative span sign-normalises: current halfway down an
    // inverted range still reads as its exact percentage.
    match render(whole(0), whole(100), whole(50), "X") {
        RenderOutcome::Rendered { percentage, filled, .. } => {
            assert_eq!(percentage, "50.00%");
            assert_eq!(filled, 25);
        }
        _ => panic!("expected a rendered bar"),
    }
}

#[test]
fn rendering_is_deterministic() {
    let (h, l, c) = (whole(123), whole(7), whole(100));
    let a = render(h, l, c, "ETH");
    let b = render(h, l, c, "ETH");
    match (a, b) {
        (
            RenderOutcome::Rendered { percentage: pa, filled: fa, empty: ea, line: la },
            RenderOutcome::Rendered { percentage: pb, filled: fb, empty: eb, line: lb },
        ) => {
            assert_eq!(pa, pb);
            assert_eq!(fa, fb);
            assert_eq!(ea, eb);
            assert_eq!(la, lb);
            assert_eq!(la.as_bytes(), lb.as_bytes());
        }
        _ => panic!("expected two rendered bars"),
    }
}
