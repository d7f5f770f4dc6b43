//! Generated profiles.

use flamegraph_viewer::flame;
use flamegraph_viewer::parsers::{perf_script, Options};
use flamegraph_viewer::synthetic::{next_random, Generator};
use flamegraph_viewer::validate;

#[test]
fn random_numbers_are_those_of_xorshift() {
    let mut x: u64 = 0x9e3779b97f4a7c15;
    for _ in 0..100 {
        let mut y = x;
        y ^= y << 13;
        y ^= y >> 7;
        y ^= y << 17;
        assert_eq!(next_random(x), y);
        x = y;
    }
}

#[test]
fn records_are_perf_script() {
    let generator = Generator::new();
    assert_eq!(
        generator.record_text(),
        "program 1000/1000 1.000000000: 1 cycles:\n\
         \t000000400040 func_0001 (/app/lib/module_01.so)\n\
         \t000000400000 func_0000 (/app/lib/module_00.so)\n\n"
    );
}

#[test]
fn generated_profiles_read_back() {
    let mut generator = Generator::new();
    let mut text = String::new();
    let mut before = generator.time();
    for _ in 0..200 {
        generator.advance();
        assert!(generator.time() >= before + 1000 && generator.time() < before + 5000);
        before = generator.time();
        text.push_str(&generator.record_text());
    }
    let profile = perf_script::parse_str(&text, Options::default());
    assert_eq!(profile.threads.len(), 1);
    assert_eq!(profile.total_samples(), 200);
    let thread = &profile.threads[0];
    assert_eq!(thread.label(), "program [1000/1000]");
    assert!(thread.max_depth() <= 48);
    for sample in &thread.samples {
        let n = sample.stack.len();
        assert_eq!(thread.key(sample.stack[n - 1]), "func_0000");
        assert_eq!(thread.key(sample.stack[n - 2]), "func_0001");
    }
    assert_eq!(flame::call_tree(thread).roots.len(), 1);
    assert_eq!(validate::check(&profile, true), Ok(()));
}
