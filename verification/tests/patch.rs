use phase_vm::patch::{apply_unified, fnv_digest, PatchResult};

fn err_of(r: Result<PatchResult, String>) -> String {
    match r {
        Err(e) => e,
        Ok(_) => panic!("ожидалась ошибка"),
    }
}

#[test]
fn applies_simple_unified_diff() {
    let orig = "alpha\nbeta\ngamma\ndelta\n";
    let diff = "\
--- a/f.txt
+++ b/f.txt
@@ -1,4 +1,4 @@
 alpha
-beta
+BETA
 gamma
 delta
";
    let r = apply_unified(orig, diff).unwrap();
    assert_eq!(r.text, "alpha\nBETA\ngamma\ndelta\n");
}

#[test]
fn conflict_leaves_original_untouched() {
    let orig = "alpha\nWRONG\ngamma\n";
    let diff = "\
@@ -1,3 +1,3 @@
 alpha
-beta
+beta
 gamma
";
    let r = apply_unified(orig, diff);
    assert!(r.is_err(), "конфликт обязан вернуть ошибку");
    assert_eq!(orig, "alpha\nWRONG\ngamma\n");
}

#[test]
fn multiple_hunks_shift_positions() {
    let orig = "a\nb\nc\nd\ne\nf\n";
    let diff = "\
@@ -1,3 +1,4 @@
 a
 b
+bb
 c
@@ -4,3 +5,3 @@
 d
 e
-f
+F
";
    let r = apply_unified(orig, diff).unwrap();
    assert_eq!(r.text, "a\nb\nbb\nc\nd\ne\nF\n");
    let r2 = apply_unified(orig, diff).unwrap();
    assert_eq!(r.digest, r2.digest);
}

#[test]
fn fnv_digest_known_values() {
    assert_eq!(fnv_digest(""), 0xcbf2_9ce4_8422_2325);
    assert_eq!(fnv_digest("a"), 0xaf63_dc4c_8601_ec8c);
}

#[test]
fn digest_is_the_line_chain() {
    let r = apply_unified("x\ny", "").unwrap();
    assert_eq!(r.text, "x\ny");
    let prime = 0x100000001b3u64;
    let off = 0xcbf2_9ce4_8422_2325u64;
    let mut d = off;
    for l in ["x", "y"] {
        d = (off ^ d).wrapping_add(fnv_digest(l)).wrapping_mul(prime);
    }
    assert_eq!(r.digest, d);
}

#[test]
fn mismatch_message_quotes_the_expected_line() {
    let e = err_of(apply_unified("alpha\nWRONG\n", "@@ -1,2 +1,2 @@\n alpha\n-beta\n+gamma\n"));
    assert_eq!(e, "хунок 1: контекст не совпал на строке 2 (ожидалось \"beta\")");
}

#[test]
fn header_and_range_errors() {
    assert_eq!(err_of(apply_unified("a\n", "@@ -1,1\n a\n")), "bad hunk header");
    assert_eq!(err_of(apply_unified("a\n", "@@ -x,1 +1,1 @@\n a\n")), "bad old line");
    assert_eq!(
        err_of(apply_unified("a\n", "@@ -1,2 +1,2 @@\n a\n")),
        "хунок 1-й: (removed 0 + ctx 1) != old_count 2"
    );
    assert_eq!(
        err_of(apply_unified("a\n", "@@ -3,1 +3,1 @@\n a\n")),
        "хунок 1: выходит за конец файла"
    );
}

#[test]
fn no_newline_marker_and_default_counts() {
    let orig = "one\ntwo";
    let diff = "@@ -2 +2 @@\n-two\n+TWO\n\\ No newline at end of file\n";
    let r = apply_unified(orig, diff).unwrap();
    assert_eq!(r.text, "one\nTWO");
}
