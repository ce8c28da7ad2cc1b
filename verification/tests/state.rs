use mc_scan::num::IntError;
use mc_scan::state::{parse, render, tmp_path, Checkpoint, StateError};

#[test]
fn roundtrip() {
    let ckpt = Checkpoint {
        seed: 42,
        index: 1000,
        total: 5000,
        fingerprint: 0xDEAD_BEEF_CAFE_BABE,
    };
    let text = render(&ckpt);
    let loaded = parse(&text).unwrap();
    assert_eq!(loaded, ckpt);
    assert_eq!(tmp_path("mc-scan.state"), "mc-scan.state.tmp");
}

#[test]
fn state_has_exact_text() {
    let ckpt = Checkpoint { seed: 42, index: 1000, total: 5000, fingerprint: 0xBEEF };
    assert_eq!(render(&ckpt), "v=1\nseed=42\nindex=1000\ntotal=5000\nfp=000000000000beef\n");
    let most = Checkpoint {
        seed: u64::MAX,
        index: u64::MAX,
        total: u64::MAX,
        fingerprint: u64::MAX,
    };
    assert_eq!(parse(&render(&most)), Ok(most));
}

#[test]
fn state_passes_over_what_it_does_not_know() {
    let text = "# note\n\n  seed=1\r\nindex=2\nother=x\nno sign\ntotal=3\nfp= fF \nseed=9\n";
    assert_eq!(
        parse(text),
        Ok(Checkpoint { seed: 9, index: 2, total: 3, fingerprint: 255 })
    );
}

#[test]
fn bad_states_are_refused() {
    assert_eq!(parse(""), Err(StateError::Incomplete));
    assert_eq!(parse("seed=1\nindex=2\ntotal=3\n"), Err(StateError::Incomplete));
    assert_eq!(parse("seed=\n"), Err(StateError::Number(IntError::Empty)));
    assert_eq!(parse("seed= 1\n"), Err(StateError::Number(IntError::InvalidDigit)));
    assert_eq!(
        parse("index=18446744073709551616\n"),
        Err(StateError::Number(IntError::TooLarge))
    );
    assert_eq!(parse("fp=xyz\n"), Err(StateError::Number(IntError::InvalidDigit)));
    assert_eq!(parse("seed=-1\n"), Err(StateError::Number(IntError::InvalidDigit)));
    assert_eq!(StateError::Incomplete.message(), "incomplete state file");
    assert_eq!(
        StateError::Number(IntError::TooLarge).message(),
        "number too large to fit in target type"
    );
}
